//! The decoder proper: the marker loop, the scan loop and the bookkeeping
//! around the decoding of one block.
use crate::iostream::InputStream;
use crate::jpeg_decoder::block::decode_block;
use crate::jpeg_decoder::block::decode_block_successive_approximation;
use crate::jpeg_decoder::block::is_decoding_error;
use crate::jpeg_decoder::block::drawn_in_turn;
use crate::jpeg_decoder::block::marker_kept;
use crate::jpeg_decoder::block::settled;
use crate::jpeg_decoder::block::refine_stopped;
use crate::jpeg_decoder::block::stopped;
use crate::jpeg_decoder::block::Band;
use crate::jpeg_decoder::block::BlockState;
use crate::jpeg_decoder::block::RefineState;
use crate::jpeg_decoder::error::JpegError;
use crate::jpeg_decoder::error::JpegResult;
use crate::jpeg_decoder::error::UnsupportedFeature;
use crate::jpeg_decoder::huffman::advanced;
use crate::jpeg_decoder::huffman::fill_default_mjpeg_tables;
use crate::jpeg_decoder::huffman::lemma_advanced_trans;
use crate::jpeg_decoder::huffman::lemma_worked_refl;
use vstd::arithmetic::power2::pow2;
use crate::jpeg_decoder::huffman::drained;
use crate::jpeg_decoder::huffman::fill_run;
use crate::jpeg_decoder::huffman::met_the_end;
use crate::jpeg_decoder::huffman::rst_answer;
use crate::jpeg_decoder::huffman::rst_text;
use crate::jpeg_decoder::huffman::tables_wf;
use crate::jpeg_decoder::huffman::taken;
use crate::jpeg_decoder::huffman::BitState;
use crate::jpeg_decoder::huffman::HuffmanDecoder;
use crate::jpeg_decoder::huffman::HuffmanTable;
use crate::jpeg_decoder::huffman::Reading;
use crate::jpeg_decoder::jpeg::CodingProcess;
use crate::jpeg_decoder::jpeg::Component;
use crate::jpeg_decoder::jpeg::EntropyCoding;
use crate::jpeg_decoder::jpeg::FormatInfo;
use crate::jpeg_decoder::jpeg::FrameInfo;
use crate::jpeg_decoder::jpeg::Jpeg;
use crate::jpeg_decoder::jpeg::Scan;
use crate::jpeg_decoder::jpeg::ScanInfo;
use crate::jpeg_decoder::jpeg::ScanTruncation;
use crate::jpeg_decoder::marker::Marker;
use crate::jpeg_decoder::parser::app_of;
use crate::jpeg_decoder::parser::be16;
use crate::jpeg_decoder::parser::dht_error;
use crate::jpeg_decoder::parser::dht_installed;
use crate::jpeg_decoder::parser::dqt_error;
use crate::jpeg_decoder::parser::dqt_installed;
use crate::jpeg_decoder::parser::dri_of;
use crate::jpeg_decoder::parser::ends_where_run_out;
use crate::jpeg_decoder::parser::first_segment;
use crate::jpeg_decoder::parser::is_frame_of;
use crate::jpeg_decoder::parser::is_segment_error;
use crate::jpeg_decoder::parser::lemma_first_segment;
use crate::jpeg_decoder::parser::quantization_view;
use crate::jpeg_decoder::parser::ran_out;
use crate::jpeg_decoder::parser::sof_error;
use crate::jpeg_decoder::parser::AppData;
use crate::jpeg_decoder::parser::is_parse_error;
use crate::jpeg_decoder::parser::is_scan_of;
use crate::jpeg_decoder::parser::parse_app;
use crate::jpeg_decoder::parser::parse_com;
use crate::jpeg_decoder::parser::parse_dht;
use crate::jpeg_decoder::parser::parse_dqt;
use crate::jpeg_decoder::parser::parse_dri;
use crate::jpeg_decoder::parser::parse_sof;
use crate::jpeg_decoder::parser::parse_sos;
use crate::jpeg_decoder::parser::payload_at_hand;
use crate::jpeg_decoder::parser::segment_at_hand;
use crate::jpeg_decoder::parser::served_whole;
use crate::jpeg_decoder::parser::segment_payload;
use crate::jpeg_decoder::parser::sos_error;
use crate::thread_handoff::ThreadHandoffExt;
use vstd::prelude::*;

verus! {

pub const MAX_COMPONENTS: usize = 4;

pub type DecodeResult = JpegResult<Jpeg>;

/// What the marker loop does next.
#[derive(Debug, Clone, Copy, PartialEq, Eq, Structural)]
pub enum Step {
    /// Parse the frame header SOFn and install the frame.
    Frame(u8),
    /// Parse a scan header and decode the scan.
    Scan,
    /// Parse a DQT segment.
    QuantizationTables,
    /// Parse a DHT segment.
    HuffmanTables,
    /// Parse a DRI segment.
    RestartInterval,
    /// Skip a comment.
    Comment,
    /// Parse the application segment APPn.
    Application(u8),
    /// Pass over a restart marker that trails a scan.
    Skip,
    /// The image has ended.
    End,
}

/// How the marker loop takes a marker.
pub enum Verdict {
    Do(Step),
    Unsupported(UnsupportedFeature),
    Malformatted(Seq<char>),
}

/// How the marker loop takes `marker`, given the marker before it, whether a
/// frame has been seen, and how many scans have been processed. An image
/// has one frame; a scan needs it; a restart marker may trail a scan; DNL
/// may follow the first scan only, and is not decoded even there.
pub open spec fn verdict(
    marker: Marker,
    previous: Marker,
    has_frame: bool,
    n_scan_processed: usize,
) -> Verdict {
    match marker {
        Marker::SOF(n) => if has_frame {
            Verdict::Unsupported(UnsupportedFeature::Hierarchical)
        } else {
            Verdict::Do(Step::Frame(n))
        },
        Marker::SOS => if has_frame {
            Verdict::Do(Step::Scan)
        } else {
            Verdict::Malformatted("scan encountered before frame"@)
        },
        Marker::DQT => Verdict::Do(Step::QuantizationTables),
        Marker::DHT => Verdict::Do(Step::HuffmanTables),
        Marker::DAC => Verdict::Unsupported(UnsupportedFeature::ArithmeticEntropyCoding),
        Marker::DRI => Verdict::Do(Step::RestartInterval),
        Marker::COM => Verdict::Do(Step::Comment),
        Marker::APP(n) => Verdict::Do(Step::Application(n)),
        Marker::RST(_) => if previous == Marker::SOS {
            Verdict::Do(Step::Skip)
        } else {
            Verdict::Malformatted("RST found outside of entropy-coded data"@)
        },
        Marker::DNL => if previous == Marker::SOS && n_scan_processed == 1 {
            Verdict::Unsupported(UnsupportedFeature::DNL)
        } else {
            Verdict::Malformatted("DNL is only allowed immediately after the first scan"@)
        },
        Marker::DHP => Verdict::Unsupported(UnsupportedFeature::Hierarchical),
        Marker::EXP => Verdict::Unsupported(UnsupportedFeature::Hierarchical),
        Marker::EOI => Verdict::Do(Step::End),
        _ => Verdict::Malformatted("marker found where not allowed"@),
    }
}

/// Whether a frame header is among the markers.
pub open spec fn has_frame(markers: Seq<Marker>) -> bool
    decreases markers.len(),
{
    if markers.len() == 0 {
        false
    } else {
        markers.last() is SOF || has_frame(markers.drop_last())
    }
}

/// The number of scan headers among the markers.
pub open spec fn scans_among(markers: Seq<Marker>) -> nat
    decreases markers.len(),
{
    if markers.len() == 0 {
        0
    } else {
        scans_among(markers.drop_last()) + if markers.last() == Marker::SOS {
            1nat
        } else {
            0nat
        }
    }
}

/// The count of scans that the decoder keeps: it stops at `usize::MAX`.
pub open spec fn scans_counted(markers: Seq<Marker>) -> usize {
    if scans_among(markers) <= usize::MAX {
        scans_among(markers) as usize
    } else {
        usize::MAX
    }
}

/// The marker before the next one: SOI ahead of all others.
pub open spec fn previous(markers: Seq<Marker>) -> Marker {
    if markers.len() == 0 {
        Marker::SOI
    } else {
        markers.last()
    }
}

/// How the marker loop takes marker `i` of a file whose markers behind SOI
/// are `markers`, when it has taken the markers before it.
pub open spec fn verdict_at(markers: Seq<Marker>, i: int) -> Verdict {
    let before = markers.take(i);
    verdict(markers[i], previous(before), has_frame(before), scans_counted(before))
}

/// Whether the marker loop takes each of the first `n` markers.
pub open spec fn allowed_up_to(markers: Seq<Marker>, n: int) -> bool {
    forall|i: int| 0 <= i < n ==> #[trigger] verdict_at(markers, i) is Do
}

/// One more marker changes no verdict on the markers before it.
proof fn lemma_allowed_push(markers: Seq<Marker>, marker: Marker)
    requires
        allowed_up_to(markers, markers.len() as int),
    ensures
        allowed_up_to(markers.push(marker), markers.len() as int),
        verdict_at(markers.push(marker), markers.len() as int) == verdict(
            marker,
            previous(markers),
            has_frame(markers),
            scans_counted(markers),
        ),
        has_frame(markers.push(marker)) == (marker is SOF || has_frame(markers)),
        scans_among(markers.push(marker)) == scans_among(markers) + if marker == Marker::SOS {
            1nat
        } else {
            0nat
        },
        previous(markers.push(marker)) == marker,
{
    let more = markers.push(marker);
    assert(more.drop_last() =~= markers);
    assert(more.take(markers.len() as int) =~= markers);
    assert forall|i: int| 0 <= i < markers.len() implies #[trigger] verdict_at(more, i) is Do by {
        assert(more.take(i) =~= markers.take(i));
        assert(verdict_at(more, i) == verdict_at(markers, i));
    }
}

/// Whether `r` says what `verdict` says.
pub open spec fn gives(r: JpegResult<Step>, verdict: Verdict) -> bool {
    match verdict {
        Verdict::Do(step) => r == Ok::<Step, JpegError>(step),
        Verdict::Unsupported(feature) => r matches Err(e) && e.is_unsupported(feature),
        Verdict::Malformatted(text) => r matches Err(e) && e.is_malformatted(text),
    }
}

/// Decides how the marker loop takes `marker`.
pub fn classify(marker: Marker, previous: Marker, has_frame: bool, n_scan_processed: usize) -> (r:
    JpegResult<Step>)
    ensures
        gives(r, verdict(marker, previous, has_frame, n_scan_processed)),
{
    let after_scan = match previous {
        Marker::SOS => true,
        _ => false,
    };
    match marker {
        Marker::SOF(n) => {
            if has_frame {
                Err(JpegError::Unsupported(UnsupportedFeature::Hierarchical))
            } else {
                Ok(Step::Frame(n))
            }
        },
        Marker::SOS => {
            if has_frame {
                Ok(Step::Scan)
            } else {
                Err(JpegError::malformatted("scan encountered before frame"))
            }
        },
        Marker::DQT => Ok(Step::QuantizationTables),
        Marker::DHT => Ok(Step::HuffmanTables),
        Marker::DAC => Err(JpegError::Unsupported(UnsupportedFeature::ArithmeticEntropyCoding)),
        Marker::DRI => Ok(Step::RestartInterval),
        Marker::COM => Ok(Step::Comment),
        Marker::APP(n) => Ok(Step::Application(n)),
        Marker::RST(_) => {
            if after_scan {
                Ok(Step::Skip)
            } else {
                Err(JpegError::malformatted("RST found outside of entropy-coded data"))
            }
        },
        Marker::DNL => {
            if after_scan && n_scan_processed == 1 {
                Err(JpegError::Unsupported(UnsupportedFeature::DNL))
            } else {
                Err(
                    JpegError::malformatted("DNL is only allowed immediately after the first scan"),
                )
            }
        },
        Marker::DHP => Err(JpegError::Unsupported(UnsupportedFeature::Hierarchical)),
        Marker::EXP => Err(JpegError::Unsupported(UnsupportedFeature::Hierarchical)),
        Marker::EOI => Ok(Step::End),
        _ => Err(JpegError::malformatted("marker found where not allowed")),
    }
}

/// The feature of a frame that is not decoded, if it has one: differential
/// or lossless coding, arithmetic entropy coding, a precision other than 8
/// bits, a height of 0, or a number of components other than 1, 3 or 4.
pub open spec fn frame_fault(frame: &FrameInfo) -> Option<UnsupportedFeature> {
    let count = frame.components@.len();
    if frame.is_differential {
        Some(UnsupportedFeature::Hierarchical)
    } else if frame.coding_process == CodingProcess::Lossless {
        Some(UnsupportedFeature::Lossless)
    } else if frame.entropy_coding == EntropyCoding::Arithmetic {
        Some(UnsupportedFeature::ArithmeticEntropyCoding)
    } else if frame.precision != 8 {
        Some(UnsupportedFeature::SamplePrecision(frame.precision))
    } else if frame.size.height == 0 {
        Some(UnsupportedFeature::DNL)
    } else if count != 1 && count != 3 && count != 4 {
        Some(UnsupportedFeature::ComponentCount(count as u8))
    } else {
        None
    }
}

/// Accepts a frame that can be decoded.
pub fn check_frame(frame: &FrameInfo) -> (r: JpegResult<()>)
    requires
        frame.wf(),
    ensures
        match r {
            Ok(_) => frame_fault(frame) is None,
            Err(e) => frame_fault(frame) matches Some(feature) && e.is_unsupported(feature),
        },
{
    let count = frame.components.len();
    if frame.is_differential {
        return Err(JpegError::Unsupported(UnsupportedFeature::Hierarchical));
    }
    match frame.coding_process {
        CodingProcess::Lossless => {
            return Err(JpegError::Unsupported(UnsupportedFeature::Lossless));
        },
        _ => {},
    }
    match frame.entropy_coding {
        EntropyCoding::Arithmetic => {
            return Err(JpegError::Unsupported(UnsupportedFeature::ArithmeticEntropyCoding));
        },
        _ => {},
    }
    if frame.precision != 8 {
        return Err(JpegError::Unsupported(UnsupportedFeature::SamplePrecision(frame.precision)));
    }
    if frame.size.height == 0 {
        return Err(JpegError::Unsupported(UnsupportedFeature::DNL));
    }
    if count != 1 && count != 3 && count != 4 {
        return Err(JpegError::Unsupported(UnsupportedFeature::ComponentCount(count as u8)));
    }
    Ok(())
}

/// Whether `raw` is a marker as the marker loop takes it off the stream: any
/// number of stray bytes other than `0xFF`, `0xFF` once or more, and the
/// byte of the marker.
pub open spec fn is_marker_run(raw: Seq<u8>, marker: Marker) -> bool {
    &&& raw.len() >= 2
    &&& Marker::of(raw.last()) == Some(marker)
    &&& exists|strays: int| marker_run_at(raw, strays)
}

/// Whether `raw` is `strays` bytes other than `0xFF`, then `0xFF` once or
/// more, then one more byte.
pub open spec fn marker_run_at(raw: Seq<u8>, strays: int) -> bool {
    &&& 0 <= strays <= raw.len() - 2
    &&& forall|i: int| 0 <= i < strays ==> raw[i] != 0xFF
    &&& forall|i: int| strays <= i < raw.len() - 1 ==> raw[i] == 0xFF
}

/// What was taken in two steps is what the first step took and then what
/// the second took.
pub proof fn lemma_taken_in_steps(first: Seq<u8>, second: Seq<u8>, third: Seq<u8>)
    requires
        first.is_prefix_of(second),
        second.is_prefix_of(third),
    ensures
        first.is_prefix_of(third),
        third.skip(first.len() as int) == second.skip(first.len() as int) + third.skip(
            second.len() as int,
        ),
        second.skip(first.len() as int).is_prefix_of(third.skip(first.len() as int)),
{
    assert(third.skip(first.len() as int) =~= second.skip(first.len() as int) + third.skip(
        second.len() as int,
    ));
}

/// Whether the frame is coded by the baseline process, if there is a frame.
pub open spec fn baseline_of(frame: Option<FrameInfo>) -> Option<bool> {
    match frame {
        Some(found) => Some(found.coding_process == CodingProcess::Baseline),
        None => None,
    }
}

/// Whether the bytes `pending` open with the marker `marker`, as the marker
/// loop takes one, and the marker ends with the byte `k`.
pub open spec fn marker_at_hand(pending: Seq<u8>, k: int, marker: Marker) -> bool {
    0 <= k <= pending.len() && is_marker_run(pending.take(k), marker)
}

/// Whether the bytes `pending` open with `0xFF` and the byte behind it, as
/// the marker loop takes them, and that byte is the byte `k`: stray bytes
/// other than `0xFF`, then `0xFF` once or more, then a byte that is not
/// `0xFF`.
pub open spec fn code_at_hand(pending: Seq<u8>, k: int) -> bool {
    &&& 2 <= k <= pending.len()
    &&& exists|strays: int| marker_run_at(pending.take(k), strays)
    &&& pending[k - 1] != 0xFF
}

/// Whether `pending` opens with `strays` bytes other than `0xFF`, then
/// `0xFF` up to the byte `k`, which is not `0xFF`.
pub open spec fn run_shape(pending: Seq<u8>, k: int, strays: int) -> bool {
    &&& 0 <= strays <= k - 2
    &&& k <= pending.len()
    &&& forall|i: int| 0 <= i < strays ==> pending[i] != 0xFF
    &&& forall|i: int| strays <= i < k - 1 ==> pending[i] == 0xFF
    &&& pending[k - 1] != 0xFF
}

/// A marker at hand is a code at hand.
pub proof fn lemma_marker_at_hand(pending: Seq<u8>, k: int, marker: Marker)
    requires
        marker_at_hand(pending, k, marker),
    ensures
        code_at_hand(pending, k),
        Marker::of(pending[k - 1]) == Some(marker),
{
    assert(pending.take(k).last() == pending[k - 1]);
}

/// A code at hand has its shape.
pub proof fn lemma_code_at_hand(pending: Seq<u8>, k: int) -> (strays: int)
    requires
        code_at_hand(pending, k),
    ensures
        run_shape(pending, k, strays),
{
    let run = pending.take(k);
    let strays = choose|strays: int| marker_run_at(run, strays);
    assert forall|i: int| 0 <= i < strays implies pending[i] != 0xFF by {
        assert(run[i] == pending[i]);
    }
    assert forall|i: int| strays <= i < k - 1 implies pending[i] == 0xFF by {
        assert(run[i] == pending[i]);
    }
    strays
}

/// The bytes at hand open with one code at most.
pub proof fn lemma_code_at_hand_once(pending: Seq<u8>, k: int, other_k: int)
    requires
        code_at_hand(pending, k),
        code_at_hand(pending, other_k),
    ensures
        k == other_k,
{
    let strays = lemma_code_at_hand(pending, k);
    let other_strays = lemma_code_at_hand(pending, other_k);
    if strays < other_strays {
        assert(pending[strays] == 0xFF);
    }
    if other_strays < strays {
        assert(pending[other_strays] == 0xFF);
    }
    if k < other_k {
        assert(pending[k - 1] != 0xFF);
    }
    if other_k < k {
        assert(pending[other_k - 1] != 0xFF);
    }
}

/// Whether `e` is the end of the stream `input`, met by a reader that holds
/// no byte that could be used, or the error of a stream whose count of
/// bytes has come to `usize::MAX`.
pub open spec fn is_end_of(e: JpegError, input: &InputStream) -> bool {
    ||| e is EOF && drained(input)
    ||| e.is_malformatted("stream is too long"@) && input.processed() == usize::MAX
}

/// Whether `e` is an error of taking a restart marker off the stream
/// `input`: the stream ended, or what stands there is no marker, or not the
/// restart marker that is due.
pub open spec fn is_restart_error(e: JpegError, input: &InputStream) -> bool {
    ||| is_end_of(e, input)
    ||| e.is_malformatted("no marker found where RST was expected"@)
    ||| e.is_malformatted("found marker inside scan where RST was expected"@)
    ||| e.is_malformatted("FF 00 found where marker was expected"@)
    ||| exists|expected: u8, found: u8|
        expected <= 7 && found <= 7 && found != expected && e.is_malformatted(
            #[trigger] rst_text(expected, found),
        )
}

/// Whether `e` is an error of decoding a block from the stream `input`:
/// the stream ended, or a code of the block is faulty.
pub open spec fn is_block_error(e: JpegError, input: &InputStream) -> bool {
    ||| is_end_of(e, input)
    ||| e.is_malformatted("failed to decode huffman code"@)
    ||| e.is_malformatted("invalid DC difference magnitude category"@)
    ||| e.is_malformatted("unexpected huffman code"@)
}

/// Whether `e` is the error of a block or of a restart marker that met the
/// end of the stream `input` ahead of `start_byte`, the place where
/// decoding proper begins.
pub open spec fn ended_early(e: JpegError, input: &InputStream, start_byte: usize) -> bool {
    &&& e.is_malformatted("EOF encountered before start_byte"@)
    &&& drained(input)
    &&& input.processed() < start_byte
}

/// Whether `e` is an error that the decoding of the entropy-coded data of
/// a scan ends with and leaves the stream as `input`: that of a block or
/// of a restart marker, or the end of the stream ahead of `start_byte`.
pub open spec fn is_scan_error(e: JpegError, input: &InputStream, start_byte: usize) -> bool {
    ||| is_block_error(e, input)
    ||| is_restart_error(e, input)
    ||| ended_early(e, input, start_byte)
}

/// The count of scans after one more.
pub open spec fn one_more(n_scans: usize) -> usize {
    if n_scans < usize::MAX {
        (n_scans + 1) as usize
    } else {
        n_scans
    }
}

/// Whether the bytes `pending` hold the rest of the headers of an image
/// without a fault, up to the EOI marker, for a decoder that parses headers
/// only and has come to the marker `previous`, the frame `frame` and
/// `n_scans` scans: marker after marker is at hand with its segment, each
/// is allowed at its place, no segment has a fault, the frame is one that
/// the decoder decodes, and the image has a frame when it ends.
pub open spec fn headers_fine(
    pending: Seq<u8>,
    previous: Marker,
    frame: Option<FrameInfo>,
    n_scans: usize,
) -> bool
    decreases pending.len(),
{
    let k = choose|k: int| code_at_hand(pending, k);
    let rest = pending.skip(k);
    let segment = first_segment(rest);
    let payload = segment.skip(2);
    let behind = rest.skip(segment.len() as int);
    if !code_at_hand(pending, k) {
        false
    } else {
        match Marker::of(pending[k - 1]) {
            None => false,
            Some(marker) => match verdict(marker, previous, frame is Some, n_scans) {
                Verdict::Do(Step::End) => frame is Some,
                Verdict::Do(Step::Skip) => headers_fine(rest, marker, frame, n_scans),
                Verdict::Do(step) => segment_at_hand(rest) && match step {
                    Step::Frame(n) => sof_error(payload, n) is None && forall|found: FrameInfo|
                        #[trigger] is_frame_of(&found, payload, n) ==> frame_fault(&found) is None
                            && headers_fine(behind, marker, Some(found), n_scans),
                    Step::Scan => match frame {
                        Some(found) => sos_error(payload, &found) is None && headers_fine(
                            behind,
                            marker,
                            frame,
                            one_more(n_scans),
                        ),
                        None => false,
                    },
                    Step::QuantizationTables => dqt_error(payload, 0) is None && headers_fine(
                        behind,
                        marker,
                        frame,
                        n_scans,
                    ),
                    Step::HuffmanTables => dht_error(payload, 0, baseline_of(frame)) is None
                        && headers_fine(behind, marker, frame, n_scans),
                    Step::RestartInterval => dri_of(payload) is Some && headers_fine(
                        behind,
                        marker,
                        frame,
                        n_scans,
                    ),
                    Step::Comment => headers_fine(behind, marker, frame, n_scans),
                    Step::Application(n) => app_of(payload, n) is Some && headers_fine(
                        behind,
                        marker,
                        frame,
                        n_scans,
                    ),
                    _ => false,
                },
                _ => false,
            },
        }
    }
}

/// Whether the bytes `pending` hold an image without a fault in its
/// headers, from the SOI marker to the EOI marker, and the count of the
/// bytes of the stream, which stands at `processed`, has room for them.
pub open spec fn image_at_hand(pending: Seq<u8>, processed: nat) -> bool {
    &&& starts_with_soi(pending)
    &&& processed + pending.len() <= usize::MAX
    &&& headers_fine(pending.skip(2), Marker::SOI, None, 0)
}

/// What the decoder owes as its answer `r` when it finds the SOI marker
/// and the marker behind it at hand, and `how` is the verdict on that
/// marker: an image that ends there has no frame, and a marker that is not
/// allowed there is refused.
pub open spec fn first_answer(how: Verdict, r: DecodeResult) -> bool {
    match how {
        Verdict::Do(Step::End) => r matches Err(e) && e.is_malformatted("incomplete header"@),
        Verdict::Do(_) => true,
        Verdict::Unsupported(feature) => r matches Err(e) && e.is_unsupported(feature),
        Verdict::Malformatted(text) => r matches Err(e) && e.is_malformatted(text),
    }
}

/// How the marker loop ended: its answer, whether it had found a frame, how
/// many bytes the decoder had processed, and whether a hand-off had been
/// recorded.
pub struct Ended {
    pub answer: JpegResult<()>,
    pub frame_found: bool,
    pub processed: nat,
    pub handoff_recorded: bool,
}

/// Whether `r` is the answer of a decoder whose marker loop ended with
/// `ended`. A loop that came to the EOI marker has decoded an image if it
/// found a frame. A stream that ended early still gives an image if a frame
/// was found, the decoder keeps the garbage, decoding proper had begun and
/// a hand-off was recorded: the image is then broken off. Every other error
/// of the loop is the answer.
pub open spec fn is_conclusion(
    r: JpegResult<()>,
    ended: JpegResult<()>,
    frame_found: bool,
    keeps_format: bool,
    processed: nat,
    start_byte: usize,
    handoff_recorded: bool,
) -> bool {
    match ended {
        Ok(_) => if frame_found {
            r is Ok
        } else {
            r matches Err(e) && e.is_malformatted("incomplete header"@)
        },
        Err(JpegError::EOF) => if !frame_found || !keeps_format {
            r matches Err(e) && e.is_malformatted("incomplete header"@)
        } else if processed < start_byte {
            r matches Err(e) && e.is_malformatted("EOF encountered before start_byte"@)
        } else if !handoff_recorded {
            r matches Err(e) && e.is_malformatted("no/insufficient entropy encoded data"@)
        } else {
            r is Ok
        },
        Err(other) => r matches Err(e) && e == other,
    }
}

/// Decides how the decoding ends when the marker loop has ended with
/// `ended`.
pub fn conclude(
    ended: JpegResult<()>,
    frame_found: bool,
    keeps_format: bool,
    processed: usize,
    start_byte: usize,
    handoff_recorded: bool,
) -> (r: JpegResult<()>)
    ensures
        is_conclusion(
            r,
            ended,
            frame_found,
            keeps_format,
            processed as nat,
            start_byte,
            handoff_recorded,
        ),
{
    match ended {
        Ok(_) => {
            if frame_found {
                Ok(())
            } else {
                Err(JpegError::malformatted("incomplete header"))
            }
        },
        Err(JpegError::EOF) => {
            if !frame_found || !keeps_format {
                Err(JpegError::malformatted("incomplete header"))
            } else if processed < start_byte {
                Err(JpegError::malformatted("EOF encountered before start_byte"))
            } else if !handoff_recorded {
                Err(JpegError::malformatted("no/insufficient entropy encoded data"))
            } else {
                Ok(())
            }
        },
        Err(other) => Err(other),
    }
}

/// The decoding of one block as the decoder has gone through it: where the
/// block stands, what it held before and holds after, the end-of-band run
/// and the DC prediction before and after, and the readings taken.
pub struct BlockRecord {
    pub place: BlockPlace,
    /// The component of the frame that the block belongs to.
    pub component: int,
    /// Where the block begins among the coefficients of the component.
    pub offset: int,
    pub band: Band,
    /// Whether the pass of the scan is a later one.
    pub refines: bool,
    pub before: Seq<i16>,
    pub after: Seq<i16>,
    pub eob_run: (u16, u16),
    pub dc_predictor: (i16, i16),
    pub readings: Seq<Reading>,
    /// Whether the block was decoded to its end.
    pub done: bool,
}

impl BlockRecord {
    /// Whether the block is what the pass of its scan makes of the
    /// readings, and so are the end-of-band run and the DC prediction.
    pub open spec fn sound(self) -> bool {
        if !self.refines {
            let outcome = BlockState::start(
                self.before,
                self.eob_run.0,
                self.dc_predictor.0,
                self.band,
            ).run(self.readings, self.band);
            &&& self.after == outcome.block
            &&& self.eob_run.1 == outcome.eob_run
            &&& self.dc_predictor.1 == outcome.dc_predictor
            &&& self.done == (outcome.phase is Done)
        } else {
            let outcome = RefineState::start(self.before, self.eob_run.0, self.band).run(
                self.readings,
                self.band,
            );
            &&& self.after == outcome.block
            &&& self.eob_run.1 == outcome.eob_run
            &&& self.dc_predictor.1 == self.dc_predictor.0
            &&& self.done == (outcome.phase is Done)
        }
    }
}

/// The coefficients of each component as plain sequences.
pub open spec fn coefficient_view(stored: Seq<Vec<i16>>) -> Seq<Seq<i16>> {
    Seq::new(stored.len(), |i: int| stored[i]@)
}

/// The coefficients `view` with the block of `record` put where it stands.
pub open spec fn applied(view: Seq<Seq<i16>>, record: BlockRecord) -> Seq<Seq<i16>> {
    let all = view[record.component];
    view.update(
        record.component,
        all.take(record.offset) + record.after + all.skip(record.offset + 64),
    )
}

/// The coefficients `view` after the blocks of `records` were put where
/// they stand, one after the other.
pub open spec fn replay(view: Seq<Seq<i16>>, records: Seq<BlockRecord>) -> Seq<Seq<i16>>
    decreases records.len(),
{
    if records.len() == 0 {
        view
    } else {
        applied(replay(view, records.drop_last()), records.last())
    }
}

/// The places of the blocks among `records` that were decoded to their end.
pub open spec fn done_places(records: Seq<BlockRecord>) -> Seq<BlockPlace>
    decreases records.len(),
{
    if records.len() == 0 {
        Seq::empty()
    } else if records.last().done {
        done_places(records.drop_last()).push(records.last().place)
    } else {
        done_places(records.drop_last())
    }
}

/// Blocks put in two goes are put one after the other.
pub proof fn lemma_replay_concat(view: Seq<Seq<i16>>, a: Seq<BlockRecord>, b: Seq<BlockRecord>)
    ensures
        replay(view, a + b) == replay(replay(view, a), b),
        done_places(a + b) == done_places(a) + done_places(b),
    decreases b.len(),
{
    if b.len() == 0 {
        assert(a + b =~= a);
        assert(done_places(a) + done_places(b) =~= done_places(a));
    } else {
        lemma_replay_concat(view, a, b.drop_last());
        assert((a + b).drop_last() =~= a + b.drop_last());
        assert((a + b).last() == b.last());
        if b.last().done {
            assert(done_places(a) + done_places(b) =~= (done_places(a) + done_places(
                b.drop_last(),
            )).push(b.last().place));
        }
    }
}

/// The coefficients of a frame none of whose blocks is decoded: zeros.
pub open spec fn blank(frame: &FrameInfo) -> Seq<Seq<i16>> {
    Seq::new(
        frame.components@.len(),
        |i: int| Seq::new(frame.components@[i].coefficient_count() as nat, |k: int| 0i16),
    )
}

/// JPEG decoder
pub struct JpegDecoder {
    input: InputStream,
    dc_huffman_tables: Vec<Option<HuffmanTable>>,
    ac_huffman_tables: Vec<Option<HuffmanTable>>,
    quantization_tables: Vec<Option<Vec<u16>>>,
    restart_interval: u16,
    is_mjpeg: bool,
    n_scan_processed: usize,
    coefficients: Vec<Vec<i16>>,
    header_only: bool,
    start_byte: usize,
    handoff_recorded: bool,
    blocks_decoded: Ghost<nat>,
    visited: Ghost<Seq<BlockPlace>>,
    markers: Ghost<Seq<Marker>>,
    restarts: Ghost<Seq<RestartPoint>>,
    blocks: Ghost<Seq<BlockRecord>>,
    eoi_end: Ghost<Option<nat>>,
    ended: Ghost<Option<Ended>>,
}

impl JpegDecoder {
    /// Every byte that the decoder has taken off the stream.
    pub closed spec fn consumed(&self) -> Seq<u8> {
        self.input.consumed()
    }

    /// The number of blocks decoded so far.
    pub closed spec fn blocks_decoded(&self) -> nat {
        self.blocks_decoded@
    }

    /// The restarts of the decoding so far.
    pub closed spec fn restarts(&self) -> Seq<RestartPoint> {
        self.restarts@
    }

    /// The markers that the marker loop has taken off the stream behind
    /// SOI, in their order.
    pub closed spec fn markers(&self) -> Seq<Marker> {
        self.markers@
    }

    /// The places of the blocks decoded so far, in the order of decoding.
    pub closed spec fn visited(&self) -> Seq<BlockPlace> {
        self.visited@
    }

    /// The number of bytes that the decoder had taken off the stream when it
    /// had read the EOI marker, if it has read one.
    pub closed spec fn eoi_end(&self) -> Option<nat> {
        self.eoi_end@
    }

    /// Whether the decoder has recorded a hand-off.
    pub closed spec fn handoff_recorded(&self) -> bool {
        self.handoff_recorded
    }

    /// The reader's end of the stream that the decoder decodes.
    pub closed spec fn stream(&self) -> InputStream {
        self.input
    }

    /// The coefficients of each component as they stand.
    pub closed spec fn stored(&self) -> Seq<Vec<i16>> {
        self.coefficients@
    }

    /// How the marker loop ended, once it has.
    pub closed spec fn ended(&self) -> Option<Ended> {
        self.ended@
    }

    /// Whether the answer `r` of the decoder is the conclusion from the way
    /// its marker loop ended.
    pub open spec fn concluded(&self, r: JpegResult<()>) -> bool {
        self.ended() matches Some(end) && is_conclusion(
            r,
            end.answer,
            end.frame_found,
            !self.header_only(),
            end.processed,
            self.start_byte(),
            end.handoff_recorded,
        )
    }

    /// Whether the decoder parses the headers only.
    pub closed spec fn header_only(&self) -> bool {
        self.header_only
    }

    /// The number of bytes that count as garbage ahead of the entropy-coded
    /// data, as long as the decoder has not passed them.
    pub closed spec fn start_byte(&self) -> usize {
        self.start_byte
    }

    /// The decoder holds together: its stream does, and it has four slots for
    /// tables of each kind, with well-formed tables in them.
    pub closed spec fn wf(&self) -> bool {
        &&& self.input.wf()
        &&& tables_wf(self.dc_huffman_tables@)
        &&& tables_wf(self.ac_huffman_tables@)
        &&& self.quantization_tables@.len() == 4
        &&& forall|i: int| 0 <= i < self.blocks@.len() ==> (#[trigger] self.blocks@[i]).sound()
    }

    /// The blocks that the decoder has gone through, in their order.
    pub closed spec fn blocks(&self) -> Seq<BlockRecord> {
        self.blocks@
    }

    /// Every block that the decoder has gone through is what the pass of
    /// its scan made of the readings taken for it.
    pub proof fn law_every_block_is_sound(&self)
        requires
            self.wf(),
        ensures
            forall|i: int| 0 <= i < self.blocks().len() ==> (#[trigger] self.blocks()[i]).sound(),
    {
    }

    /// Whether the decoder `pre` has become `self` by going through
    /// blocks: the coefficients are those of `pre` with the blocks gone
    /// through since put where they stand, and the blocks decoded since
    /// are those among them that were decoded to their end.
    pub open spec fn decoded_since(&self, pre: &JpegDecoder) -> bool {
        let new = self.blocks().skip(pre.blocks().len() as int);
        &&& pre.blocks().is_prefix_of(self.blocks())
        &&& coefficient_view(self.stored()) == replay(coefficient_view(pre.stored()), new)
        &&& self.visited() == pre.visited() + done_places(new)
    }

    /// A decoder has become itself by going through no block.
    pub proof fn lemma_decoded_refl(&self)
        ensures
            self.decoded_since(self),
    {
        assert(self.blocks().skip(self.blocks().len() as int) =~= Seq::<BlockRecord>::empty());
        assert(self.visited() + Seq::<BlockPlace>::empty() =~= self.visited());
    }

    /// Whether the coefficients are explained by the blocks that the
    /// decoder has gone through: they are those of a frame none of whose
    /// blocks is decoded, with the blocks put where they stand one after
    /// the other, and the blocks decoded are those that were decoded to
    /// their end. A decoder without storage has gone through no block.
    pub open spec fn explained(&self, frame: &Option<FrameInfo>) -> bool {
        &&& self.visited() == done_places(self.blocks())
        &&& if self.stored().len() == 0 {
            self.blocks().len() == 0
        } else {
            frame matches Some(found) && coefficient_view(self.stored()) == replay(
                blank(&found),
                self.blocks(),
            )
        }
    }

    /// Coefficients that were explained are explained when more blocks
    /// were gone through.
    pub proof fn lemma_explained_on(&self, mid: &JpegDecoder, frame: &Option<FrameInfo>)
        requires
            mid.explained(frame),
            mid.stored().len() > 0,
            self.stored().len() > 0,
            self.decoded_since(mid),
        ensures
            self.explained(frame),
    {
        let new = self.blocks().skip(mid.blocks().len() as int);
        assert(self.blocks() =~= mid.blocks() + new);
        lemma_replay_concat(blank(&frame->0), mid.blocks(), new);
    }

    /// Coefficients that were explained stay explained while no block is
    /// gone through and the frame stays what it is.
    pub proof fn lemma_explained_kept(
        &self,
        pre: &JpegDecoder,
        before: &Option<FrameInfo>,
        after: &Option<FrameInfo>,
    )
        requires
            pre.explained(before),
            self.blocks() == pre.blocks(),
            self.stored() == pre.stored(),
            self.visited() == pre.visited(),
            before is Some ==> after == before,
        ensures
            self.explained(after),
    {
    }

    /// Whether a scan with the mark `truncation` is marked as broken off
    /// at the block that the decoder went through last since `pre`, if it
    /// did not decode that block to its end.
    pub open spec fn broke_at_last(
        &self,
        pre: &JpegDecoder,
        truncation: Option<ScanTruncation>,
    ) -> bool {
        self.blocks().len() > pre.blocks().len() && !self.blocks().last().done ==> (
        truncation matches Some(at) && place_of(at) == self.blocks().last().place)
    }

    /// Whether the block that the decoder went through last was decoded to
    /// its end, if it has gone through one.
    pub open spec fn last_done(&self) -> bool {
        self.blocks().len() > 0 ==> self.blocks().last().done
    }

    /// A decoder that has gone through no block since stands where it
    /// stood.
    pub proof fn lemma_decoded_same(&self, pre: &JpegDecoder, mid: &JpegDecoder)
        requires
            mid.decoded_since(pre),
            self.blocks() == mid.blocks(),
            self.stored() == mid.stored(),
            self.visited() == mid.visited(),
        ensures
            self.decoded_since(pre),
    {
    }

    /// Blocks gone through in two goes are gone through.
    pub proof fn lemma_decoded_trans(&self, pre: &JpegDecoder, mid: &JpegDecoder)
        requires
            mid.decoded_since(pre),
            self.decoded_since(mid),
        ensures
            self.decoded_since(pre),
    {
        let a = mid.blocks().skip(pre.blocks().len() as int);
        let b = self.blocks().skip(mid.blocks().len() as int);
        assert(self.blocks().skip(pre.blocks().len() as int) =~= a + b);
        lemma_replay_concat(coefficient_view(pre.stored()), a, b);
        assert(pre.visited() + (done_places(a) + done_places(b)) =~= (pre.visited() + done_places(
            a,
        )) + done_places(b));
    }

    /// A decoder for the stream `input`. Bytes ahead of `start_byte` count
    /// as garbage ahead of the entropy-coded data; `header_only` makes the
    /// decoder pass over the scans, and then nothing counts as garbage.
    pub fn new(input: InputStream, start_byte: usize, header_only: bool) -> (decoder: Self)
        requires
            input.wf(),
        ensures
            decoder.wf(),
            decoder.fresh(),
            decoder.consumed() == input.consumed(),
            decoder.blocks_decoded() == 0,
            decoder.visited() == Seq::<BlockPlace>::empty(),
            decoder.markers() == Seq::<Marker>::empty(),
            decoder.eoi_end() is None,
            decoder.header_only() == header_only,
            decoder.start_byte() == if header_only {
                0
            } else {
                start_byte
            },
            decoder.no_tables(),
            decoder.restart_interval() == 0,
            !decoder.is_mjpeg(),
            decoder.scans_processed() == 0,
            decoder.restarts() == Seq::<RestartPoint>::empty(),
            decoder.ended() is None,
            decoder.blocks() == Seq::<BlockRecord>::empty(),
    {
        let mut dc_huffman_tables: Vec<Option<HuffmanTable>> = Vec::new();
        let mut ac_huffman_tables: Vec<Option<HuffmanTable>> = Vec::new();
        let mut quantization_tables: Vec<Option<Vec<u16>>> = Vec::new();
        let mut i: usize = 0;
        while i < 4
            invariant
                i <= 4,
                dc_huffman_tables@.len() == i,
                ac_huffman_tables@.len() == i,
                quantization_tables@.len() == i,
                forall|k: int| 0 <= k < i ==> #[trigger] dc_huffman_tables@[k] is None,
                forall|k: int| 0 <= k < i ==> #[trigger] ac_huffman_tables@[k] is None,
                forall|k: int| 0 <= k < i ==> #[trigger] quantization_tables@[k] is None,
            decreases 4 - i,
        {
            dc_huffman_tables.push(None);
            ac_huffman_tables.push(None);
            quantization_tables.push(None);
            i += 1;
        }
        JpegDecoder {
            input,
            dc_huffman_tables,
            ac_huffman_tables,
            quantization_tables,
            restart_interval: 0,
            is_mjpeg: false,
            n_scan_processed: 0,
            coefficients: Vec::new(),
            header_only,
            start_byte: if header_only {
                0
            } else {
                start_byte
            },
            handoff_recorded: false,
            blocks_decoded: Ghost(0),
            visited: Ghost(Seq::empty()),
            markers: Ghost(Seq::empty()),
            restarts: Ghost(Seq::empty()),
            blocks: Ghost(Seq::empty()),
            eoi_end: Ghost(None),
            ended: Ghost(None),
        }
    }

    /// Whether the decoder has passed `start_byte` and the garbage ahead of
    /// the entropy-coded data is still to be closed.
    fn in_pge(&self) -> (b: bool)
        requires
            self.input.wf(),
        ensures
            b == (self.start_byte > 0 && self.input.processed() > self.start_byte),
    {
        self.start_byte > 0 && self.input.processed_len() > self.start_byte
    }

    /// Takes one byte of a header off the stream and retains it.
    fn next_byte(&mut self) -> (r: JpegResult<u8>)
        requires
            old(self).input.wf(),
        ensures
            final(self).same_but_input(old(self)),
            old(self).input.pending().len() >= 1 && old(self).input.processed() < usize::MAX ==> (
            r matches Ok(byte) && byte == old(self).input.pending()[0]) && final(self).input.pending() == old(self).input.pending().skip(1),
            match r {
                Ok(byte) => {
                    &&& final(self).input.follows_read(&old(self).input, seq![byte], true)
                    &&& final(self).input.processed() == old(self).input.processed() + 1
                    &&& final(self).input.processed() <= usize::MAX
                },
                Err(e) => {
                    &&& final(self).input.same_as(&old(self).input)
                    &&& e is EOF || e.is_malformatted("stream is too long"@)
                    &&& e is EOF ==> old(self).input.pending().len() == 0
                    &&& e is Malformatted ==> old(self).input.processed() == usize::MAX
                },
            },
    {
        if self.input.processed_len() == usize::MAX {
            return Err(JpegError::malformatted("stream is too long"));
        }
        proof {
            self.input.lemma_counted_from_in_range();
        }
        match self.input.read_byte(true) {
            Ok(byte) => {
                proof {
                    self.input.lemma_counted_from_in_range();
                }
                Ok(byte)
            },
            Err(e) => Err(JpegError::from_input(e)),
        }
    }

    /// `self` is `pre` but for the stream.
    spec fn same_but_input(&self, pre: &JpegDecoder) -> bool {
        &&& self.blocks == pre.blocks
        &&& self.dc_huffman_tables == pre.dc_huffman_tables
        &&& self.ac_huffman_tables == pre.ac_huffman_tables
        &&& self.quantization_tables == pre.quantization_tables
        &&& self.restart_interval == pre.restart_interval
        &&& self.is_mjpeg == pre.is_mjpeg
        &&& self.n_scan_processed == pre.n_scan_processed
        &&& self.coefficients == pre.coefficients
        &&& self.header_only == pre.header_only
        &&& self.start_byte == pre.start_byte
        &&& self.handoff_recorded == pre.handoff_recorded
        &&& self.blocks_decoded == pre.blocks_decoded
        &&& self.visited == pre.visited
        &&& self.markers == pre.markers
        &&& self.restarts == pre.restarts
        &&& self.eoi_end == pre.eoi_end
    }

    /// `self.input` is `pre.input` after reads that retained what they took.
    spec fn read_on(&self, pre: &JpegDecoder) -> bool {
        &&& self.input.wf()
        &&& pre.input.consumed().is_prefix_of(self.input.consumed())
        &&& self.input.counted_from() == pre.input.counted_from()
        &&& self.input.retained() == pre.input.retained() + taken(&pre.input, &self.input)
    }

    /// Takes the next marker off the stream. Bytes ahead of it that are not
    /// `0xFF` are passed over: there are files with such bytes between their
    /// segments. So are fill bytes `0xFF` ahead of the byte of the marker.
    /// A marker that is at hand is taken, and no byte behind it.
    fn read_marker(&mut self) -> (r: JpegResult<Marker>)
        requires
            old(self).input.wf(),
        ensures
            final(self).same_but_input(old(self)),
            final(self).read_on(old(self)),
            forall|k: int, marker: Marker| #[trigger]
                marker_at_hand(old(self).input.pending(), k, marker) && old(self).input.processed() + k <= usize::MAX ==> {
                    &&& r matches Ok(found) && found == marker
                    &&& taken(&old(self).input, &final(self).input) == old(self).input.pending().take(k)
                    &&& final(self).input.pending() == old(self).input.pending().skip(k)
                },
            forall|k: int| #[trigger]
                code_at_hand(old(self).input.pending(), k) && old(self).input.processed() + k
                    <= usize::MAX ==> {
                    &&& taken(&old(self).input, &final(self).input) == old(self).input.pending().take(k)
                    &&& final(self).input.pending() == old(self).input.pending().skip(k)
                    &&& old(self).input.pending()[k - 1] == 0 ==> (r matches Err(e)
                        && e.is_malformatted(
                        "0xFF00 found where marker was expected (read_marker)"@,
                    ))
                },
            match r {
                Ok(marker) => {
                    &&& is_marker_run(taken(&old(self).input, &final(self).input), marker)
                    &&& final(self).input.processed() >= old(self).input.processed() + 2
                    &&& final(self).input.processed() <= usize::MAX
                },
                Err(e) => {
                    let raw = taken(&old(self).input, &final(self).input);
                    ||| e is EOF && final(self).input.pending().len() == 0
                    ||| e.is_malformatted("stream is too long"@) && final(self).input.processed()
                        == usize::MAX
                    ||| {
                        &&& e.is_malformatted(
                            "0xFF00 found where marker was expected (read_marker)"@,
                        )
                        &&& code_at_hand(raw, raw.len() as int)
                        &&& raw.last() == 0
                    }
                },
            },
    {
        let ghost at_hand = old(self).input.pending();
        let ghost start = old(self).input.processed();
        let ghost owed = exists|k: int| #[trigger]
            code_at_hand(at_hand, k) && start + k <= usize::MAX;
        let ghost end = choose|k: int| #[trigger]
            code_at_hand(at_hand, k) && start + k <= usize::MAX;
        let ghost lead = if owed {
            lemma_code_at_hand(at_hand, end)
        } else {
            0
        };
        proof {
            assert forall|k: int, marker: Marker| #[trigger]
                marker_at_hand(at_hand, k, marker) implies code_at_hand(at_hand, k) by {
                lemma_marker_at_hand(at_hand, k, marker);
            }
        }
        proof {
            assert(taken(&old(self).input, &self.input) =~= Seq::<u8>::empty());
            assert(self.input.retained() + Seq::<u8>::empty() =~= self.input.retained());
            self.input.lemma_counted_from_in_range();
            assert(at_hand.take(0) =~= Seq::<u8>::empty());
            assert(at_hand.skip(0) =~= at_hand);
        }
        let ghost mut raw: Seq<u8> = Seq::empty();
        let mut byte: u8 = 0;
        loop
            invariant_except_break
                self.same_but_input(old(self)),
                self.read_on(old(self)),
                raw == taken(&old(self).input, &self.input),
                forall|i: int| 0 <= i < raw.len() ==> raw[i] != 0xFF,
                self.input.processed() >= old(self).input.processed(),
                self.input.processed() <= usize::MAX,
                at_hand == old(self).input.pending(),
                start == old(self).input.processed(),
                owed == (exists|k: int| #[trigger]
                    code_at_hand(at_hand, k) && start + k <= usize::MAX),
                forall|k: int, marker: Marker| #[trigger]
                    marker_at_hand(at_hand, k, marker) ==> code_at_hand(at_hand, k),
                owed ==> run_shape(at_hand, end, lead) && start + end <= usize::MAX,
                owed ==> raw.len() <= end && self.input.processed() == start + raw.len(),
                raw.len() <= at_hand.len() ==> raw == at_hand.take(raw.len() as int)
                    && self.input.pending() == at_hand.skip(raw.len() as int),
            ensures
                self.same_but_input(old(self)),
                self.read_on(old(self)),
                raw == taken(&old(self).input, &self.input),
                raw.len() >= 1,
                raw.last() == 0xFF,
                forall|i: int| 0 <= i < raw.len() - 1 ==> raw[i] != 0xFF,
                self.input.processed() >= old(self).input.processed() + 1,
                self.input.processed() <= usize::MAX,
                at_hand == old(self).input.pending(),
                start == old(self).input.processed(),
                owed == (exists|k: int| #[trigger]
                    code_at_hand(at_hand, k) && start + k <= usize::MAX),
                forall|k: int, marker: Marker| #[trigger]
                    marker_at_hand(at_hand, k, marker) ==> code_at_hand(at_hand, k),
                owed ==> run_shape(at_hand, end, lead) && start + end <= usize::MAX,
                owed ==> raw.len() <= end && self.input.processed() == start + raw.len(),
                raw.len() <= at_hand.len() ==> raw == at_hand.take(raw.len() as int)
                    && self.input.pending() == at_hand.skip(raw.len() as int),
            decreases usize::MAX - self.input.processed(),
        {
            let ghost before = *self;
            proof {
                if owed {
                    if raw.len() >= end - 1 {
                        assert(raw[end - 2] == at_hand[end - 2]);
                    }
                    assert(raw.len() < end);
                }
            }
            byte = match self.next_byte() {
                Ok(byte) => byte,
                Err(e) => {
                    proof {
                        assert(taken(&old(self).input, &self.input) =~= raw);
                    }
                    return Err(e);
                },
            };
            proof {
                let ghost more = raw.push(byte);
                assert(taken(&old(self).input, &self.input) =~= more);
                assert(self.input.retained() =~= old(self).input.retained() + more);
                if more.len() <= at_hand.len() {
                    assert(more =~= at_hand.take(more.len() as int));
                    assert(self.input.pending() =~= at_hand.skip(more.len() as int));
                }
                raw = more;
            }
            if byte == 0xFF {
                break ;
            }
        }
        let ghost strays = raw.len() - 1;
        let ghost before = *self;
        proof {
            if owed {
                if raw.len() == end {
                    assert(raw[end - 1] == at_hand[end - 1]);
                }
                assert(raw.len() < end);
            }
        }
        byte = match self.next_byte() {
            Ok(byte) => byte,
            Err(e) => {
                proof {
                    assert(taken(&old(self).input, &self.input) =~= raw);
                }
                return Err(e);
            },
        };
        proof {
            let ghost more = raw.push(byte);
            assert(taken(&old(self).input, &self.input) =~= more);
            assert(self.input.retained() =~= old(self).input.retained() + more);
            if more.len() <= at_hand.len() {
                assert(more =~= at_hand.take(more.len() as int));
                assert(self.input.pending() =~= at_hand.skip(more.len() as int));
            }
            raw = more;
        }
        while byte == 0xFF
            invariant
                self.same_but_input(old(self)),
                self.read_on(old(self)),
                raw == taken(&old(self).input, &self.input),
                0 <= strays <= raw.len() - 2,
                raw.last() == byte,
                forall|i: int| 0 <= i < strays ==> raw[i] != 0xFF,
                forall|i: int| strays <= i < raw.len() - 1 ==> raw[i] == 0xFF,
                self.input.processed() >= old(self).input.processed() + 2,
                self.input.processed() <= usize::MAX,
                at_hand == old(self).input.pending(),
                start == old(self).input.processed(),
                owed == (exists|k: int| #[trigger]
                    code_at_hand(at_hand, k) && start + k <= usize::MAX),
                forall|k: int, marker: Marker| #[trigger]
                    marker_at_hand(at_hand, k, marker) ==> code_at_hand(at_hand, k),
                owed ==> run_shape(at_hand, end, lead) && start + end <= usize::MAX,
                owed ==> raw.len() <= end && self.input.processed() == start + raw.len(),
                raw.len() <= at_hand.len() ==> raw == at_hand.take(raw.len() as int)
                    && self.input.pending() == at_hand.skip(raw.len() as int),
            decreases usize::MAX - self.input.processed(),
        {
            proof {
                if owed {
                    if raw.len() == end {
                        assert(raw[end - 1] == at_hand[end - 1]);
                    }
                    assert(raw.len() < end);
                }
            }
            byte = match self.next_byte() {
                Ok(byte) => byte,
                Err(e) => {
                    proof {
                        assert(taken(&old(self).input, &self.input) =~= raw);
                    }
                    return Err(e);
                },
            };
            proof {
                let ghost more = raw.push(byte);
                assert(taken(&old(self).input, &self.input) =~= more);
                assert(self.input.retained() =~= old(self).input.retained() + more);
                if more.len() <= at_hand.len() {
                    assert(more =~= at_hand.take(more.len() as int));
                    assert(self.input.pending() =~= at_hand.skip(more.len() as int));
                }
                raw = more;
            }
        }
        proof {
            if owed {
                // The marker taken is the marker that was at hand.
                assert(raw[strays] == at_hand[strays]);
                if lead < strays {
                    assert(raw[lead] == at_hand[lead]);
                }
                assert(lead == strays);
                if raw.len() < end {
                    assert(raw[raw.len() - 1] == at_hand[raw.len() - 1]);
                }
                assert(raw.len() == end);
                assert(raw.last() == at_hand[end - 1]);
                assert forall|k: int| #[trigger] code_at_hand(at_hand, k) implies k == end by {
                    lemma_code_at_hand_once(at_hand, k, end);
                }
                assert forall|k: int, marker: Marker| #[trigger]
                    marker_at_hand(at_hand, k, marker) implies k == end && Marker::of(
                    at_hand[end - 1],
                ) == Some(marker) by {
                    lemma_marker_at_hand(at_hand, k, marker);
                    lemma_code_at_hand_once(at_hand, k, end);
                }
            }
            assert(marker_run_at(raw, strays));
            assert(raw.take(raw.len() as int) =~= raw);
        }
        match Marker::from_u8(byte) {
            Some(marker) => {
                Ok(marker)
            },
            None => Err(
                JpegError::malformatted("0xFF00 found where marker was expected (read_marker)"),
            ),
        }
    }
}

/// The block of 64 coefficients at `offset`.
fn load_block(coefficients: &Vec<i16>, offset: usize) -> (block: [i16; 64])
    requires
        offset + 64 <= coefficients@.len(),
    ensures
        block@ == coefficients@.subrange(offset as int, offset + 64),
{
    let mut block = [0i16; 64];
    let total = coefficients.len();
    let mut i: usize = 0;
    while i < 64
        invariant
            i <= 64,
            total == coefficients@.len(),
            offset + 64 <= coefficients@.len(),
            forall|k: int| 0 <= k < i ==> block@[k] == coefficients@[offset + k],
        decreases 64 - i,
    {
        block[i] = coefficients[offset + i];
        i += 1;
    }
    assert(block@ =~= coefficients@.subrange(offset as int, offset + 64));
    block
}

/// Puts the block of 64 coefficients at `offset`.
fn store_block(coefficients: &mut Vec<i16>, offset: usize, block: &[i16; 64])
    requires
        offset + 64 <= old(coefficients)@.len(),
    ensures
        final(coefficients)@.len() == old(coefficients)@.len(),
        final(coefficients)@.subrange(offset as int, offset + 64) == block@,
        forall|k: int|
            0 <= k < old(coefficients)@.len() && !(offset <= k < offset + 64) ==> final(coefficients)@[k] == old(coefficients)@[k],
{
    let total = coefficients.len();
    let mut i: usize = 0;
    while i < 64
        invariant
            i <= 64,
            total == coefficients@.len(),
            coefficients@.len() == old(coefficients)@.len(),
            offset + 64 <= coefficients@.len(),
            forall|k: int| 0 <= k < i ==> coefficients@[offset + k] == block@[k],
            forall|k: int|
                0 <= k < old(coefficients)@.len() && !(offset <= k < offset + 64) ==> coefficients@[k]
                    == old(coefficients)@[k],
        decreases 64 - i,
    {
        coefficients[offset + i] = block[i];
        i += 1;
    }
    assert(coefficients@.subrange(offset as int, offset + 64) =~= block@);
}

/// Whether `after` is the storage `before` with the block at `offset` of
/// component `component` decoded: the block is what the pass of the scan
/// makes of `readings`, and so are the end-of-band run and the DC
/// prediction; all other coefficients are where they were.
pub open spec fn block_decoded(
    before: Seq<Vec<i16>>,
    after: Seq<Vec<i16>>,
    component: int,
    offset: int,
    info: &ScanInfo,
    eob_run: (u16, u16),
    dc_predictor: (i16, i16),
    readings: Seq<Reading>,
) -> bool {
    let band = Band {
        start: info.spectral_selection_start,
        end: info.spectral_selection_end,
        low: info.successive_approximation_low,
    };
    let block = before[component]@.subrange(offset, offset + 64);
    let decoded = after[component]@.subrange(offset, offset + 64);
    &&& after.len() == before.len()
    &&& forall|j: int| 0 <= j < before.len() && j != component ==> #[trigger] after[j] == before[j]
    &&& after[component]@.len() == before[component]@.len()
    &&& forall|k: int|
        0 <= k < before[component]@.len() && !(offset <= k < offset + 64)
            ==> #[trigger] after[component]@[k] == before[component]@[k]
    &&& if info.successive_approximation_high == 0 {
        let outcome = BlockState::start(block, eob_run.0, dc_predictor.0, band).run(readings, band);
        &&& decoded == outcome.block
        &&& eob_run.1 == outcome.eob_run
        &&& dc_predictor.1 == outcome.dc_predictor
    } else {
        let outcome = RefineState::start(block, eob_run.0, band).run(readings, band);
        &&& decoded == outcome.block
        &&& eob_run.1 == outcome.eob_run
        &&& dc_predictor.1 == dc_predictor.0
    }
}

/// The table of the slot, if the pass takes codes of its kind.
pub open spec fn table_for(tables: Seq<Option<HuffmanTable>>, index: usize, wanted: bool) -> Option<
    HuffmanTable,
> {
    if wanted {
        tables[index as int]
    } else {
        None
    }
}

/// Whether `e` is the error that stopped the decoding of the block at
/// `offset` of component `component`, which had taken `readings` and left
/// the decoder as `huffman`: the error of the phase that the pass of the
/// scan had come to.
pub open spec fn block_stopped(
    e: JpegError,
    before: Seq<Vec<i16>>,
    component: int,
    offset: int,
    info: &ScanInfo,
    eob_run: u16,
    dc_predictor: i16,
    readings: Seq<Reading>,
    huffman: &HuffmanDecoder,
    input: &InputStream,
    dc_table: Option<HuffmanTable>,
    ac_table: Option<HuffmanTable>,
) -> bool {
    let band = Band {
        start: info.spectral_selection_start,
        end: info.spectral_selection_end,
        low: info.successive_approximation_low,
    };
    let block = before[component]@.subrange(offset, offset + 64);
    if info.successive_approximation_high == 0 {
        stopped(
            e,
            BlockState::start(block, eob_run, dc_predictor, band).run(readings, band).phase,
            huffman,
            input,
            dc_table,
            ac_table,
        )
    } else {
        refine_stopped(
            e,
            RefineState::start(block, eob_run, band).run(readings, band).phase,
            huffman,
            input,
            ac_table,
        )
    }
}

/// Whether every table that a component of the scan names is there.
pub open spec fn tables_set(tables: Seq<Option<HuffmanTable>>, indices: Seq<usize>) -> bool {
    forall|k: int| 0 <= k < indices.len() ==> (#[trigger] tables[indices[k] as int]) is Some
}

/// Whether every table that a component of the scan names is there, or is
/// one of the first two of a file of Motion JPEG, which has them by default.
pub open spec fn tables_at_hand(
    tables: Seq<Option<HuffmanTable>>,
    indices: Seq<usize>,
    is_mjpeg: bool,
) -> bool {
    forall|k: int|
        0 <= k < indices.len() ==> (is_mjpeg && (#[trigger] indices[k]) < 2) || tables[indices[k] as int] is Some
}

/// Takes the last hand-off back and says whether one is left.
fn pop_handoff_and_verify_non_empty(format: &mut FormatInfo) -> (non_empty: bool)
    ensures
        final(format).pge == old(format).pge,
        final(format).grb == old(format).grb,
        final(format).handoff@ == if old(format).handoff@.len() > 0 {
            old(format).handoff@.drop_last()
        } else {
            old(format).handoff@
        },
        non_empty == (final(format).handoff@.len() > 0),
{
    format.handoff.pop();
    format.handoff.len() > 0
}

impl JpegDecoder {
    /// The storage holds 64 coefficients for each block of each component
    /// of the frame.
    spec fn allocated(&self, frame: &FrameInfo) -> bool {
        &&& self.coefficients@.len() == frame.components@.len()
        &&& forall|i: int|
            0 <= i < frame.components@.len() ==> (#[trigger] self.coefficients@[i])@.len()
                == frame.components@[i].coefficient_count()
    }

    /// The tables that decoding the scan takes are installed: the DC tables
    /// if the band opens with the DC coefficient, the AC tables if it holds
    /// AC coefficients.
    spec fn tables_ready(&self, info: &ScanInfo) -> bool {
        &&& info.spectral_selection_start == 0 ==> tables_set(
            self.dc_huffman_tables@,
            info.dc_table_indices@,
        )
        &&& info.spectral_selection_end > 0 ==> tables_set(
            self.ac_huffman_tables@,
            info.ac_table_indices@,
        )
    }

    /// `self` is `pre` but for the stream, the coefficients and the count
    /// of blocks.
    pub closed spec fn same_setup(&self, pre: &JpegDecoder) -> bool {
        &&& self.dc_huffman_tables == pre.dc_huffman_tables
        &&& self.ac_huffman_tables == pre.ac_huffman_tables
        &&& self.quantization_tables == pre.quantization_tables
        &&& self.restart_interval == pre.restart_interval
        &&& self.is_mjpeg == pre.is_mjpeg
        &&& self.n_scan_processed == pre.n_scan_processed
        &&& self.header_only == pre.header_only
        &&& self.start_byte == pre.start_byte
        &&& self.handoff_recorded == pre.handoff_recorded
        &&& self.eoi_end == pre.eoi_end
        &&& self.markers == pre.markers
        &&& self.coefficients@.len() == pre.coefficients@.len()
        &&& forall|i: int|
            0 <= i < self.coefficients@.len() ==> (#[trigger] self.coefficients@[i])@.len()
                == pre.coefficients@[i]@.len()
    }

    /// Decodes the block at row `y` and column `x` of a component of the
    /// scan. If the stream ends within the block, the scan is marked as
    /// broken off at the block, and the bytes taken for the block become
    /// garbage behind the image; if the block is the first of the scan, so
    /// does the header of the scan, and the hand-off of the row is taken
    /// back.
    fn decode_block(
        &mut self,
        y: usize,
        x: usize,
        scan_component_index: usize,
        component: &Component,
        scan: &mut Scan,
        huffman: &mut HuffmanDecoder,
        eob_run: &mut u16,
        dc_predictor: &mut i16,
        format: &mut FormatInfo,
    ) -> (r: JpegResult<()>)
        requires
            old(self).wf(),
            old(huffman).wf(),
            old(scan).info.wf(old(self).coefficients@.len()),
            old(self).tables_ready(&old(scan).info),
            scan_component_index < old(scan).info.component_indices@.len(),
            (y * component.size_in_block.width + x) * 64 + 64 <= old(self).coefficients@[old(scan).info.component_indices@[scan_component_index as int] as int]@.len(),
        ensures
            final(self).wf(),
            final(huffman).wf(),
            final(self).same_setup(old(self)),
            final(self).restarts() == old(self).restarts(),
            final(scan).info == old(scan).info,
            final(scan).raw_header == old(scan).raw_header,
            final(scan).coefficients == old(scan).coefficients,
            final(format).pge == old(format).pge,
            advanced(&old(self).input, &final(self).input),
            no_further_ahead(old(huffman), final(huffman), &old(self).input, &final(self).input),
            final(huffman).buffer() == old(huffman).carried() + taken(
                &old(self).input,
                &final(self).input,
            ),
            old(huffman).readings().is_prefix_of(final(huffman).readings()),
            marker_kept(old(huffman), final(huffman), &old(self).input, &final(self).input),
            final(self).decoded_since(old(self)),
            final(self).blocks().len() == old(self).blocks().len() + 1,
            final(self).blocks().last().done == (r is Ok),
            r matches Err(e) ==> (e is EOF ==> final(self).broke_at_last(
                old(self),
                final(scan).truncation,
            )),
            drawn_in_turn(
                old(huffman),
                final(huffman),
                if old(scan).info.spectral_selection_start == 0 && old(scan).info.successive_approximation_high == 0 {
                    table_for(
                        old(self).dc_huffman_tables@,
                        old(scan).info.dc_table_indices@[scan_component_index as int],
                        true,
                    )
                } else {
                    table_for(
                        old(self).ac_huffman_tables@,
                        old(scan).info.ac_table_indices@[scan_component_index as int],
                        old(scan).info.spectral_selection_end > 0,
                    )
                },
                table_for(
                    old(self).ac_huffman_tables@,
                    old(scan).info.ac_table_indices@[scan_component_index as int],
                    old(scan).info.spectral_selection_end > 0,
                ),
            ),
            r is Ok ==> settled(old(huffman), final(huffman)),
            block_decoded(
                old(self).coefficients@,
                final(self).coefficients@,
                old(scan).info.component_indices@[scan_component_index as int] as int,
                (y * component.size_in_block.width + x) * 64,
                &old(scan).info,
                (*old(eob_run), *final(eob_run)),
                (*old(dc_predictor), *final(dc_predictor)),
                final(huffman).read_since(old(huffman)),
            ),
            match r {
                Ok(_) => {
                    &&& final(self).blocks_decoded() == old(self).blocks_decoded() + 1
                    &&& final(self).visited() == old(self).visited().push(
                        BlockPlace { component: scan_component_index as int, y: y as int, x: x as int },
                    )
                    &&& final(scan).truncation == old(scan).truncation
                    &&& *final(format) == *old(format)
                },
                Err(e) => {
                    &&& final(self).blocks_decoded() == old(self).blocks_decoded()
                    &&& final(self).visited() == old(self).visited()
                    &&& is_decoding_error(e)
                    &&& ended_early(e, &final(self).input, old(self).start_byte) || block_stopped(
                        e,
                        old(self).coefficients@,
                        old(scan).info.component_indices@[scan_component_index as int] as int,
                        (y * component.size_in_block.width + x) * 64,
                        &old(scan).info,
                        *old(eob_run),
                        *old(dc_predictor),
                        final(huffman).read_since(old(huffman)),
                        final(huffman),
                        &final(self).input,
                        table_for(
                            old(self).dc_huffman_tables@,
                            old(scan).info.dc_table_indices@[scan_component_index as int],
                            old(scan).info.spectral_selection_start == 0,
                        ),
                        table_for(
                            old(self).ac_huffman_tables@,
                            old(scan).info.ac_table_indices@[scan_component_index as int],
                            old(scan).info.spectral_selection_end > 0,
                        ),
                    )
                    &&& is_block_error(e, &final(self).input) || ended_early(
                        e,
                        &final(self).input,
                        old(self).start_byte,
                    )
                    &&& e is EOF ==> {
                        let first = scan_component_index == 0 && x == 0 && y == 0;
                        &&& final(self).input.processed() >= old(self).start_byte
                        &&& final(scan).truncation == Some(
                            ScanTruncation {
                                component_index: scan_component_index,
                                block_y: y,
                                block_x: x,
                            },
                        )
                        &&& final(format).grb@ == old(format).grb@ + (if first {
                            old(scan).raw_header@
                        } else {
                            Seq::<u8>::empty()
                        }) + final(huffman).buffer()
                        &&& final(format).handoff@ == if first && old(format).handoff@.len() > 0 {
                            old(format).handoff@.drop_last()
                        } else {
                            old(format).handoff@
                        }
                    }
                },
            },
    {
        let component_index = scan.info.component_indices[scan_component_index];
        let total = self.coefficients[component_index].len();
        let width = component.size_in_block.width as usize;
        assert(y * width <= total && y * width + x <= total && (y * width + x) * 64 <= total)
            by (nonlinear_arith)
            requires
                (y * width + x) * 64 + 64 <= total,
                0 <= y,
                0 <= x,
                0 <= width,
        ;
        let block_offset = (y * width + x) * 64;
        let start = scan.info.spectral_selection_start;
        let end = scan.info.spectral_selection_end;
        let low = scan.info.successive_approximation_low;
        let first_pass = scan.info.successive_approximation_high == 0;
        let dc_index = scan.info.dc_table_indices[scan_component_index];
        let ac_index = scan.info.ac_table_indices[scan_component_index];
        let mut block = load_block(&self.coefficients[component_index], block_offset);
        let ghost loaded = block@;
        huffman.clear_buffer();
        proof {
            lemma_worked_refl(huffman, &self.input);
        }
        let dc_table = if start == 0 {
            self.dc_huffman_tables[dc_index].as_ref()
        } else {
            None
        };
        let ac_table = if end > 0 {
            self.ac_huffman_tables[ac_index].as_ref()
        } else {
            None
        };
        let decoded = if first_pass {
            decode_block(
                &mut self.input,
                &mut block,
                huffman,
                dc_table,
                ac_table,
                start,
                end,
                low,
                eob_run,
                dc_predictor,
            )
        } else {
            decode_block_successive_approximation(
                &mut self.input,
                &mut block,
                huffman,
                ac_table,
                start,
                end,
                low,
                eob_run,
            )
        };
        store_block(&mut self.coefficients[component_index], block_offset, &block);
        let ghost record = BlockRecord {
            place: BlockPlace { component: scan_component_index as int, y: y as int, x: x as int },
            component: component_index as int,
            offset: block_offset as int,
            band: Band { start, end, low },
            refines: !first_pass,
            before: loaded,
            after: block@,
            eob_run: (*old(eob_run), *eob_run),
            dc_predictor: (*old(dc_predictor), *dc_predictor),
            readings: huffman.read_since(old(huffman)),
            done: decoded is Ok,
        };
        self.blocks = Ghost(self.blocks@.push(record));
        proof {
            assert(record.sound());
            let before = coefficient_view(old(self).coefficients@);
            let all = before[component_index as int];
            let put = all.take(block_offset as int) + block@ + all.skip(block_offset + 64);
            assert(self.coefficients@[component_index as int]@ =~= put) by {
                assert forall|k: int| 0 <= k < put.len() implies self.coefficients@[
                    component_index as int
                ]@[k] == put[k] by {
                    if block_offset <= k < block_offset + 64 {
                        assert(self.coefficients@[component_index as int]@.subrange(
                            block_offset as int,
                            block_offset + 64,
                        )[k - block_offset] == block@[k - block_offset]);
                    }
                }
            }
            assert(coefficient_view(self.coefficients@) =~= applied(before, record));
            assert(self.blocks@.skip(old(self).blocks@.len() as int) =~= seq![record]);
            assert(seq![record].drop_last() =~= Seq::<BlockRecord>::empty());
            reveal_with_fuel(replay, 2);
            reveal_with_fuel(done_places, 2);
            assert(old(self).visited@ + Seq::<BlockPlace>::empty() =~= old(self).visited@);
            assert(old(self).visited@ + seq![record.place] =~= old(self).visited@.push(
                record.place,
            ));
        }
        match decoded {
            Ok(()) => {
                self.blocks_decoded = Ghost((self.blocks_decoded@ + 1) as nat);
                self.visited = Ghost(
                    self.visited@.push(
                        BlockPlace { component: scan_component_index as int, y: y as int, x: x as int },
                    ),
                );
                Ok(())
            },
            Err(JpegError::EOF) => {
                if self.input.processed_len() < self.start_byte {
                    return Err(JpegError::malformatted("EOF encountered before start_byte"));
                }
                if scan_component_index == 0 && x == 0 && y == 0 {
                    // The whole scan is garbage.
                    pop_handoff_and_verify_non_empty(format);
                    format.grb.extend_from_slice(scan.raw_header.as_slice());
                } else {
                    proof {
                        assert(format.grb@ + Seq::<u8>::empty() =~= format.grb@);
                    }
                }
                format.grb.extend_from_slice(huffman.view_buffer());
                scan.truncation = Some(ScanTruncation::new(scan_component_index, y, x));
                Err(JpegError::EOF)
            },
            Err(e) => Err(e),
        }
    }
}

/// The place of a block in a scan: the component of the scan by its number,
/// and the row and the column of the block among the blocks of the
/// component.
pub struct BlockPlace {
    pub component: int,
    pub y: int,
    pub x: int,
}

/// The first `count` blocks that a component with the sampling factors `h`
/// and `v` has in the MCU at row `mcu_y` and column `mcu_x`: a rectangle of
/// `h` blocks across, row by row.
pub open spec fn rectangle_places(
    component: int,
    h: int,
    v: int,
    mcu_y: int,
    mcu_x: int,
    count: int,
) -> Seq<BlockPlace> {
    Seq::new(
        count as nat,
        |j: int| BlockPlace { component, y: mcu_y * v + j / h, x: mcu_x * h + j % h },
    )
}

/// The blocks that the first `n` components of a scan of several
/// components have in the MCU at row `mcu_y` and column `mcu_x`, component
/// by component.
pub open spec fn mcu_places(
    frame: &FrameInfo,
    info: &ScanInfo,
    mcu_y: int,
    mcu_x: int,
    n: int,
) -> Seq<BlockPlace>
    decreases n,
{
    if n <= 0 {
        Seq::empty()
    } else {
        let c = frame.components@[info.component_indices@[n - 1] as int];
        mcu_places(frame, info, mcu_y, mcu_x, n - 1) + rectangle_places(
            n - 1,
            c.horizontal_sampling_factor as int,
            c.vertical_sampling_factor as int,
            mcu_y,
            mcu_x,
            c.horizontal_sampling_factor * c.vertical_sampling_factor,
        )
    }
}

/// The blocks of the MCU at row `mcu_y` and column `mcu_x` of the grid of a
/// scan: for a scan of one component the one block at that place.
pub open spec fn mcu_blocks(frame: &FrameInfo, info: &ScanInfo, mcu_y: int, mcu_x: int) -> Seq<
    BlockPlace,
> {
    let n = info.component_indices@.len() as int;
    if n > 1 {
        mcu_places(frame, info, mcu_y, mcu_x, n)
    } else {
        seq![BlockPlace { component: 0, y: mcu_y, x: mcu_x }]
    }
}

/// The blocks of the first `upto` MCUs of row `mcu_y` of the grid of a
/// scan, from left to right.
pub open spec fn row_places(frame: &FrameInfo, info: &ScanInfo, mcu_y: int, upto: int) -> Seq<
    BlockPlace,
>
    decreases upto,
{
    if upto <= 0 {
        Seq::empty()
    } else {
        row_places(frame, info, mcu_y, upto - 1) + mcu_blocks(frame, info, mcu_y, upto - 1)
    }
}

/// The blocks of the first `upto` rows of MCUs of the grid of a scan, from
/// top to bottom.
pub open spec fn rows_places(frame: &FrameInfo, info: &ScanInfo, upto: int) -> Seq<BlockPlace>
    decreases upto,
{
    if upto <= 0 {
        Seq::empty()
    } else {
        rows_places(frame, info, upto - 1) + row_places(
            frame,
            info,
            upto - 1,
            scan_width(frame, info),
        )
    }
}

/// The blocks of a scan in the order of decoding: the grid of MCUs row by
/// row, each row from left to right, and within an MCU of several
/// components component by component, each with its rectangle of blocks
/// row by row.
pub open spec fn scan_places(frame: &FrameInfo, info: &ScanInfo) -> Seq<BlockPlace> {
    rows_places(frame, info, scan_height(frame, info))
}

/// The place of the block at which a scan broke off.
pub open spec fn place_of(truncation: ScanTruncation) -> BlockPlace {
    BlockPlace {
        component: truncation.component_index as int,
        y: truncation.block_y as int,
        x: truncation.block_x as int,
    }
}

/// Whether decoding went from `before` to `after` along `places` and broke
/// off: the blocks decoded since are the first of `places`, and if the
/// decoding broke off within a block, the block is the next of `places`.
pub open spec fn broke_off(
    before: Seq<BlockPlace>,
    after: Seq<BlockPlace>,
    truncation: Option<ScanTruncation>,
    places: Seq<BlockPlace>,
) -> bool {
    &&& before.is_prefix_of(after)
    &&& match truncation {
        Some(at) => after.skip(before.len() as int).push(place_of(at)).is_prefix_of(places),
        None => after.skip(before.len() as int).is_prefix_of(places),
    }
}

proof fn lemma_prefix_concat(head: Seq<BlockPlace>, a: Seq<BlockPlace>, b: Seq<BlockPlace>)
    requires
        a.is_prefix_of(b),
    ensures
        (head + a).is_prefix_of(head + b),
        a.is_prefix_of(b + head),
{
    assert((head + a) =~= (head + b).subrange(0, (head + a).len() as int));
    assert(a =~= (b + head).subrange(0, a.len() as int));
}

proof fn lemma_prefix_trans(a: Seq<BlockPlace>, b: Seq<BlockPlace>, c: Seq<BlockPlace>)
    requires
        a.is_prefix_of(b),
        b.is_prefix_of(c),
    ensures
        a.is_prefix_of(c),
{
    assert(a =~= c.subrange(0, a.len() as int));
}

/// The first blocks of the rectangle of a component are the first blocks
/// of its MCU behind the blocks of the components before it.
proof fn lemma_rectangle_within_mcu(
    frame: &FrameInfo,
    info: &ScanInfo,
    mcu_y: int,
    mcu_x: int,
    i: int,
    count: int,
    n: int,
)
    requires
        frame.wf(),
        info.wf(frame.components@.len()),
        0 <= i < n <= info.component_indices@.len(),
        0 <= count <= frame.components@[info.component_indices@[i] as int].horizontal_sampling_factor
            * frame.components@[info.component_indices@[i] as int].vertical_sampling_factor,
    ensures
        (mcu_places(frame, info, mcu_y, mcu_x, i) + rectangle_places(
            i,
            frame.components@[info.component_indices@[i] as int].horizontal_sampling_factor as int,
            frame.components@[info.component_indices@[i] as int].vertical_sampling_factor as int,
            mcu_y,
            mcu_x,
            count,
        )).is_prefix_of(mcu_places(frame, info, mcu_y, mcu_x, n)),
    decreases n - i,
{
    let c = frame.components@[info.component_indices@[i] as int];
    let h = c.horizontal_sampling_factor as int;
    let v = c.vertical_sampling_factor as int;
    let part = rectangle_places(i, h, v, mcu_y, mcu_x, count);
    let whole = rectangle_places(i, h, v, mcu_y, mcu_x, h * v);
    let before = mcu_places(frame, info, mcu_y, mcu_x, i);
    assert(part =~= whole.subrange(0, count));
    lemma_prefix_concat(before, part, whole);
    assert(mcu_places(frame, info, mcu_y, mcu_x, i + 1) == before + whole);
    if i + 1 < n {
        let next = frame.components@[info.component_indices@[i + 1] as int];
        assert(next.wf());
        assert(0 <= next.horizontal_sampling_factor * next.vertical_sampling_factor)
            by (nonlinear_arith)
            requires
                next.horizontal_sampling_factor >= 0,
                next.vertical_sampling_factor >= 0,
        ;
        lemma_rectangle_within_mcu(frame, info, mcu_y, mcu_x, i + 1, 0, n);
        assert(mcu_places(frame, info, mcu_y, mcu_x, i + 1) + rectangle_places(
            i + 1,
            next.horizontal_sampling_factor as int,
            next.vertical_sampling_factor as int,
            mcu_y,
            mcu_x,
            0,
        ) =~= mcu_places(frame, info, mcu_y, mcu_x, i + 1));
        lemma_prefix_trans(
            before + part,
            before + whole,
            mcu_places(frame, info, mcu_y, mcu_x, n),
        );
    }
}

/// The first blocks of an MCU are the first blocks of the scan behind the
/// rows above the MCU and the MCUs to its left.
proof fn lemma_mcu_within_scan(
    frame: &FrameInfo,
    info: &ScanInfo,
    mcu_y: int,
    mcu_x: int,
    part: Seq<BlockPlace>,
)
    requires
        0 <= mcu_y < scan_height(frame, info),
        0 <= mcu_x < scan_width(frame, info),
        part.is_prefix_of(mcu_blocks(frame, info, mcu_y, mcu_x)),
    ensures
        (rows_places(frame, info, mcu_y) + (row_places(frame, info, mcu_y, mcu_x) + part)).is_prefix_of(
            scan_places(frame, info),
        ),
{
    let width = scan_width(frame, info);
    let height = scan_height(frame, info);
    let row = row_places(frame, info, mcu_y, mcu_x);
    let mcu = mcu_blocks(frame, info, mcu_y, mcu_x);
    lemma_prefix_concat(row, part, mcu);
    assert(row_places(frame, info, mcu_y, mcu_x + 1) == row + mcu);
    lemma_row_prefix(frame, info, mcu_y, mcu_x + 1, width);
    lemma_prefix_trans(row + part, row + mcu, row_places(frame, info, mcu_y, width));
    let rows = rows_places(frame, info, mcu_y);
    lemma_prefix_concat(rows, row + part, row_places(frame, info, mcu_y, width));
    assert(rows_places(frame, info, mcu_y + 1) == rows + row_places(frame, info, mcu_y, width));
    lemma_rows_prefix(frame, info, mcu_y + 1, height);
    lemma_prefix_trans(
        rows + (row + part),
        rows_places(frame, info, mcu_y + 1),
        rows_places(frame, info, height),
    );
}

proof fn lemma_row_prefix(frame: &FrameInfo, info: &ScanInfo, mcu_y: int, upto: int, width: int)
    requires
        0 <= upto <= width,
    ensures
        row_places(frame, info, mcu_y, upto).is_prefix_of(row_places(frame, info, mcu_y, width)),
    decreases width - upto,
{
    if upto < width {
        lemma_row_prefix(frame, info, mcu_y, upto + 1, width);
        let row = row_places(frame, info, mcu_y, upto);
        assert(row_places(frame, info, mcu_y, upto + 1) == row + mcu_blocks(
            frame,
            info,
            mcu_y,
            upto,
        ));
        assert(row.is_prefix_of(row_places(frame, info, mcu_y, upto + 1))) by {
            assert(row =~= row_places(frame, info, mcu_y, upto + 1).subrange(0, row.len() as int));
        }
        lemma_prefix_trans(
            row,
            row_places(frame, info, mcu_y, upto + 1),
            row_places(frame, info, mcu_y, width),
        );
    }
}

proof fn lemma_rows_prefix(frame: &FrameInfo, info: &ScanInfo, upto: int, height: int)
    requires
        0 <= upto <= height,
    ensures
        rows_places(frame, info, upto).is_prefix_of(rows_places(frame, info, height)),
    decreases height - upto,
{
    if upto < height {
        lemma_rows_prefix(frame, info, upto + 1, height);
        let rows = rows_places(frame, info, upto);
        assert(rows_places(frame, info, upto + 1) == rows + row_places(
            frame,
            info,
            upto,
            scan_width(frame, info),
        ));
        assert(rows.is_prefix_of(rows_places(frame, info, upto + 1))) by {
            assert(rows =~= rows_places(frame, info, upto + 1).subrange(0, rows.len() as int));
        }
        lemma_prefix_trans(
            rows,
            rows_places(frame, info, upto + 1),
            rows_places(frame, info, height),
        );
    }
}

/// The blocks of a scan are as many as its MCUs times the blocks of an MCU,
/// which for a scan of several components are the products of the
/// sampling factors of its components; for a scan of one component they
/// are the blocks of the component.
pub proof fn law_scan_block_count(frame: &FrameInfo, info: &ScanInfo)
    requires
        frame.wf(),
        info.wf(frame.components@.len()),
    ensures
        scan_places(frame, info).len() == scan_block_count(frame, info),
{
    let height = scan_height(frame, info);
    let width = scan_width(frame, info);
    lemma_rows_len(frame, info, height);
    if info.component_indices@.len() > 1 {
    } else {
        assert(height * width * 1 == height * width) by (nonlinear_arith);
    }
}

proof fn lemma_mcu_len(frame: &FrameInfo, info: &ScanInfo, mcu_y: int, mcu_x: int, n: int)
    requires
        frame.wf(),
        info.wf(frame.components@.len()),
        0 <= n <= info.component_indices@.len(),
    ensures
        mcu_places(frame, info, mcu_y, mcu_x, n).len() == blocks_per_mcu(frame, info, n),
    decreases n,
{
    if n > 0 {
        lemma_mcu_len(frame, info, mcu_y, mcu_x, n - 1);
        let index = info.component_indices@[n - 1];
        let c = frame.components@[index as int];
        assert(c.wf());
        assert(c.horizontal_sampling_factor * c.vertical_sampling_factor >= 0)
            by (nonlinear_arith)
            requires
                c.horizontal_sampling_factor >= 0,
                c.vertical_sampling_factor >= 0,
        ;
    }
}

proof fn lemma_row_len(frame: &FrameInfo, info: &ScanInfo, mcu_y: int, upto: int)
    requires
        frame.wf(),
        info.wf(frame.components@.len()),
        0 <= upto,
    ensures
        row_places(frame, info, mcu_y, upto).len() == upto * mcu_block_count(frame, info),
    decreases upto,
{
    let per_mcu = mcu_block_count(frame, info);
    if upto > 0 {
        lemma_row_len(frame, info, mcu_y, upto - 1);
        if info.component_indices@.len() > 1 {
            lemma_mcu_len(
                frame,
                info,
                mcu_y,
                upto - 1,
                info.component_indices@.len() as int,
            );
        }
        assert(upto * per_mcu == (upto - 1) * per_mcu + per_mcu) by (nonlinear_arith);
    } else {
        assert(upto * per_mcu == 0) by (nonlinear_arith)
            requires
                upto == 0,
        ;
    }
}

proof fn lemma_rows_len(frame: &FrameInfo, info: &ScanInfo, upto: int)
    requires
        frame.wf(),
        info.wf(frame.components@.len()),
        0 <= upto,
    ensures
        rows_places(frame, info, upto).len() == upto * scan_width(frame, info) * mcu_block_count(
            frame,
            info,
        ),
    decreases upto,
{
    let width = scan_width(frame, info);
    let per_mcu = mcu_block_count(frame, info);
    if upto > 0 {
        lemma_rows_len(frame, info, upto - 1);
        lemma_row_len(frame, info, upto - 1, width);
        assert(upto * width * per_mcu == (upto - 1) * width * per_mcu + width * per_mcu)
            by (nonlinear_arith);
    } else {
        assert(upto * width * per_mcu == 0) by (nonlinear_arith)
            requires
                upto == 0,
        ;
    }
}

/// The block at row `by` and column `bx` of a rectangle comes next behind
/// the `by` rows above it and the `bx` blocks to its left.
proof fn lemma_rectangle_push(
    component: int,
    h: int,
    v: int,
    mcu_y: int,
    mcu_x: int,
    by: int,
    bx: int,
)
    requires
        0 <= by,
        0 <= bx < h,
    ensures
        by * h + bx >= 0,
        rectangle_places(component, h, v, mcu_y, mcu_x, by * h + bx + 1) == rectangle_places(
            component,
            h,
            v,
            mcu_y,
            mcu_x,
            by * h + bx,
        ).push(BlockPlace { component, y: mcu_y * v + by, x: mcu_x * h + bx }),
{
    let count = by * h + bx;
    assert(count >= 0) by (nonlinear_arith)
        requires
            count == by * h + bx,
            0 <= by,
            0 <= bx < h,
    ;
    vstd::arithmetic::div_mod::lemma_fundamental_div_mod_converse(count, h, by, bx);
    assert(rectangle_places(component, h, v, mcu_y, mcu_x, count + 1) =~= rectangle_places(
        component,
        h,
        v,
        mcu_y,
        mcu_x,
        count,
    ).push(BlockPlace { component, y: mcu_y * v + by, x: mcu_x * h + bx }));
}

/// A restart of the decoding within a scan: the number of blocks that
/// the decoder had decoded when it took the restart marker, and the number
/// of the marker.
pub struct RestartPoint {
    pub blocks: nat,
    pub number: u8,
}

/// The first `count` restarts of a scan that starts when `start` blocks
/// are decoded: restart `j` comes behind `(j + 1) * interval` MCUs of
/// `per_mcu` blocks each, with the marker `RSTn` for `n = j % 8`.
pub open spec fn first_restarts(start: nat, per_mcu: int, interval: int, count: int) -> Seq<
    RestartPoint,
> {
    Seq::new(
        count as nat,
        |j: int|
            RestartPoint {
                blocks: (start + (j + 1) * interval * per_mcu) as nat,
                number: (j % 8) as u8,
            },
    )
}

/// The number of restarts of a scan when `done` of its `total` MCUs are
/// decoded: one behind every `interval` MCUs, but none behind the last MCU
/// of the scan.
pub open spec fn restarts_done(done: int, total: int, interval: int) -> int {
    if interval <= 0 || total <= 0 {
        0
    } else if done >= total {
        (total - 1) / interval
    } else {
        done / interval
    }
}

/// The restarts of a scan of `total` MCUs of `per_mcu` blocks each.
pub open spec fn scan_restarts(start: nat, total: int, per_mcu: int, interval: int) -> Seq<
    RestartPoint,
> {
    first_restarts(start, per_mcu, interval, restarts_done(total, total, interval))
}

/// How the count of restarts goes on with one more MCU: behind an MCU that
/// fills an interval a restart is due, unless the MCU is the last.
proof fn lemma_restarts_step(done: int, total: int, interval: int)
    requires
        0 <= done < total,
        interval > 0,
    ensures
        done % interval == interval - 1 ==> (done + 1) % interval == 0 && (done + 1) / interval
            == done / interval + 1 && (done / interval + 1) * interval == done + 1,
        done % interval != interval - 1 ==> (done + 1) % interval == done % interval + 1 && (done
            + 1) / interval == done / interval,
        restarts_done(done, total, interval) == done / interval,
        restarts_done(done + 1, total, interval) == if done % interval == interval - 1 && done + 1
            < total {
            done / interval + 1
        } else {
            done / interval
        },
        0 <= done % interval < interval,
        0 <= done / interval,
{
    let q = done / interval;
    let rem = done % interval;
    vstd::arithmetic::div_mod::lemma_fundamental_div_mod(done, interval);
    vstd::arithmetic::div_mod::lemma_mod_bound(done, interval);
    vstd::arithmetic::div_mod::lemma_div_pos_is_pos(done, interval);
    assert(done == interval * q + rem);
    if rem == interval - 1 {
        assert(done + 1 == (q + 1) * interval + 0) by (nonlinear_arith)
            requires
                done == interval * q + rem,
                rem == interval - 1,
        ;
        vstd::arithmetic::div_mod::lemma_fundamental_div_mod_converse(
            done + 1,
            interval,
            q + 1,
            0,
        );
    } else {
        assert(done + 1 == q * interval + (rem + 1)) by (nonlinear_arith)
            requires
                done == interval * q + rem,
        ;
        vstd::arithmetic::div_mod::lemma_fundamental_div_mod_converse(
            done + 1,
            interval,
            q,
            rem + 1,
        );
    }
}

/// The number of blocks that the first `n` components of the scan have in
/// one MCU: for each, its horizontal times its vertical sampling factor.
pub open spec fn blocks_per_mcu(frame: &FrameInfo, info: &ScanInfo, n: int) -> int
    decreases n,
{
    if n <= 0 {
        0
    } else {
        let c = frame.components@[info.component_indices@[n - 1] as int];
        blocks_per_mcu(frame, info, n - 1) + c.horizontal_sampling_factor
            * c.vertical_sampling_factor
    }
}

/// The number of blocks of a scan: with more than one component, the
/// blocks of one MCU for each MCU of the frame; with one component, the
/// blocks of the component.
pub open spec fn scan_block_count(frame: &FrameInfo, info: &ScanInfo) -> int {
    let n = info.component_indices@.len() as int;
    if n > 1 {
        frame.size_in_mcu.height * frame.size_in_mcu.width * blocks_per_mcu(frame, info, n)
    } else {
        let c = frame.components@[info.component_indices@[0] as int];
        c.size_in_block.height * c.size_in_block.width
    }
}

/// Whether the decoder `post` has read the stream no further ahead than
/// `pre` had, but by the bytes taken since: the bytes of which it has used
/// a bit are no fewer than before.
pub open spec fn no_further_ahead(
    pre: &HuffmanDecoder,
    post: &HuffmanDecoder,
    pre_input: &InputStream,
    post_input: &InputStream,
) -> bool {
    post.unread() <= pre.unread() + taken(pre_input, post_input).len()
}

/// What the decoder held when it recorded a hand-off: the count of the
/// bytes that it had processed, and its bit reader.
pub struct RowMark {
    pub processed: nat,
    pub state: BitState,
}

/// Whether `handoff` records the place `mark` in the stream. The size of
/// the segment is the count of the bytes processed, kept in 32 bits. The
/// overhang is the byte of which the reader has used some bits, and the
/// number of its bits that are left.
pub open spec fn records(handoff: ThreadHandoffExt, mark: RowMark) -> bool {
    &&& handoff.segment_size == mark.processed % 0x1_0000_0000
    &&& handoff.n_overhang_bit <= 7
    &&& handoff.n_overhang_bit == mark.state.num_bits % 8
    &&& handoff.overhang_byte == mark.state.window / pow2(
        (mark.state.num_bits - handoff.n_overhang_bit) as nat,
    ) % 256
}

/// Whether `after` is `before` with one hand-off more for each of the
/// `rows` rows of MCUs of scan number `scan`, in the order of the rows.
/// Each records the place `marks` has for its row; the counts of bytes
/// processed do not fall from row to row, and lie between `from` and
/// `upto`: the sizes of the segments do not fall as long as they fit in
/// 32 bits.
pub open spec fn rows_handed_off(
    before: Seq<ThreadHandoffExt>,
    after: Seq<ThreadHandoffExt>,
    rows: int,
    scan: usize,
    marks: Seq<RowMark>,
    from: nat,
    upto: nat,
) -> bool {
    &&& after.len() == before.len() + rows
    &&& before.is_prefix_of(after)
    &&& marks.len() == rows
    &&& forall|row: int|
        0 <= row < rows ==> {
            let handoff = #[trigger] after[before.len() + row];
            &&& handoff.mcu_y_start == row
            &&& handoff.start_scan == scan % 65536
            &&& handoff.end_scan == scan % 65536
            &&& handoff.last_dc@ == seq![0u16, 0u16, 0u16, 0u16]
            &&& records(handoff, marks[row])
        }
    &&& forall|row: int| 0 <= row < rows ==> from <= (#[trigger] marks[row]).processed <= upto
    &&& forall|i: int, j: int|
        0 <= i <= j < rows ==> (#[trigger] marks[i]).processed <= (#[trigger] marks[j]).processed
}

/// Hand-offs recorded up to some count of bytes are recorded up to any
/// greater count.
proof fn lemma_rows_upto(
    before: Seq<ThreadHandoffExt>,
    after: Seq<ThreadHandoffExt>,
    rows: int,
    scan: usize,
    marks: Seq<RowMark>,
    from: nat,
    upto: nat,
    more: nat,
)
    requires
        rows_handed_off(before, after, rows, scan, marks, from, upto),
        upto <= more,
    ensures
        rows_handed_off(before, after, rows, scan, marks, from, more),
{
}

/// The count of bytes processed does not fall while the stream advances.
proof fn lemma_processed_grows(pre: &InputStream, post: &InputStream)
    requires
        pre.wf(),
        advanced(pre, post),
    ensures
        pre.processed() <= post.processed(),
{
    pre.lemma_counted_from_in_range();
    post.lemma_counted_from_in_range();
}

/// The number of blocks of one MCU of a scan.
pub open spec fn mcu_block_count(frame: &FrameInfo, info: &ScanInfo) -> int {
    let n = info.component_indices@.len() as int;
    if n > 1 {
        blocks_per_mcu(frame, info, n)
    } else {
        1
    }
}

/// The height of the grid that a scan walks, in MCUs.
pub open spec fn scan_height(frame: &FrameInfo, info: &ScanInfo) -> int {
    if info.component_indices@.len() > 1 {
        frame.size_in_mcu.height as int
    } else {
        frame.components@[info.component_indices@[0] as int].size_in_block.height as int
    }
}

/// The width of the grid that a scan walks, in MCUs.
pub open spec fn scan_width(frame: &FrameInfo, info: &ScanInfo) -> int {
    if info.component_indices@.len() > 1 {
        frame.size_in_mcu.width as int
    } else {
        frame.components@[info.component_indices@[0] as int].size_in_block.width as int
    }
}

fn all_set(tables: &Vec<Option<HuffmanTable>>, indices: &Vec<usize>) -> (b: bool)
    requires
        tables@.len() == 4,
        forall|k: int| 0 <= k < indices@.len() ==> #[trigger] indices@[k] <= 3,
    ensures
        b == tables_set(tables@, indices@),
{
    let mut k: usize = 0;
    while k < indices.len()
        invariant
            k <= indices@.len(),
            tables@.len() == 4,
            forall|j: int| 0 <= j < indices@.len() ==> #[trigger] indices@[j] <= 3,
            forall|j: int| 0 <= j < k ==> (#[trigger] tables@[indices@[j] as int]) is Some,
        decreases indices@.len() - k,
    {
        assert(indices@[k as int] <= 3);
        if tables[indices[k]].is_none() {
            return false;
        }
        k += 1;
    }
    true
}

impl JpegDecoder {
    /// Whether the quantization table of every component of the scan is
    /// installed.
    spec fn quantization_set(&self, frame: &FrameInfo, info: &ScanInfo) -> bool {
        forall|k: int|
            0 <= k < info.component_indices@.len() ==> self.quantization_tables@[frame.components@[(
            #[trigger] info.component_indices@[k]) as int].quantization_table_index as int]
                is Some
    }

    /// The table that the scan takes and that is not installed, by the text
    /// of the error that names it: a quantization table, or else a DC table
    /// of a band that opens with the DC coefficient, or else an AC table of
    /// a band with AC coefficients. The first two Huffman tables of each
    /// kind are taken for granted in Motion JPEG.
    spec fn missing_table(&self, frame: &FrameInfo, info: &ScanInfo) -> Option<Seq<char>> {
        if !self.quantization_set(frame, info) {
            Some("use of unset quantization table"@)
        } else if info.spectral_selection_start == 0 && !tables_at_hand(
            self.dc_huffman_tables@,
            info.dc_table_indices@,
            self.is_mjpeg,
        ) {
            Some("scan makes use of unset dc huffman table"@)
        } else if info.spectral_selection_end > 0 && !tables_at_hand(
            self.ac_huffman_tables@,
            info.ac_table_indices@,
            self.is_mjpeg,
        ) {
            Some("scan makes use of unset ac huffman table"@)
        } else {
            None
        }
    }

    /// Takes the restart marker that is due off the stream and starts the
    /// decoding over: no bits, no DC predictions, no end-of-band run, and the
    /// next restart marker is due. If the stream ends instead, the bytes
    /// taken become garbage behind the image. Where a marker is at hand,
    /// it decides: any but the restart marker that is due is an error.
    pub fn restart(
        &mut self,
        huffman: &mut HuffmanDecoder,
        dc_predictors: &mut [i16; MAX_COMPONENTS],
        eob_run: &mut u16,
        expected_rst_num: &mut u8,
        format: &mut FormatInfo,
    ) -> (r: JpegResult<()>)
        requires
            old(self).wf(),
            old(huffman).wf(),
            *old(expected_rst_num) <= 7,
        ensures
            final(self).wf(),
            final(huffman).wf(),
            final(self).same_setup(old(self)),
            final(self).stored() == old(self).stored(),
            final(self).blocks() == old(self).blocks(),
            final(self).blocks_decoded() == old(self).blocks_decoded(),
            final(self).visited() == old(self).visited(),
            advanced(&old(self).stream(), &final(self).stream()),
            no_further_ahead(old(huffman), final(huffman), &old(self).stream(), &final(self).stream()),
            final(format).pge == old(format).pge,
            final(format).handoff == old(format).handoff,
            *final(expected_rst_num) <= 7,
            forall|k: int| #[trigger]
                fill_run(old(self).stream().pending(), k) && old(self).stream().processed() + k
                    <= usize::MAX ==> rst_answer(
                    r,
                    *old(expected_rst_num),
                    old(self).stream().pending()[k - 1],
                ),
            match r {
                Ok(_) => {
                    &&& final(huffman).state() == BitState::empty()
                    &&& forall|i: int| 0 <= i < MAX_COMPONENTS ==> final(dc_predictors)@[i] == 0
                    &&& *final(eob_run) == 0
                    &&& *final(expected_rst_num) == (*old(expected_rst_num) + 1) % 8
                    &&& final(format).grb == old(format).grb
                    &&& final(self).restarts() == old(self).restarts().push(
                        RestartPoint {
                            blocks: old(self).blocks_decoded(),
                            number: *old(expected_rst_num),
                        },
                    )
                },
                Err(e) => {
                    &&& final(self).restarts() == old(self).restarts()
                    &&& is_decoding_error(e)
                    &&& is_restart_error(e, &final(self).stream())
                    &&& e is EOF ==> final(format).grb@ == old(format).grb@ + final(huffman).buffer()
                },
            },
    {
        huffman.clear_buffer();
        match huffman.read_rst(&mut self.input, *expected_rst_num) {
            Ok(_) => {
                huffman.reset();
                *dc_predictors = [0i16; MAX_COMPONENTS];
                *eob_run = 0;
                self.restarts = Ghost(
                    self.restarts@.push(
                        RestartPoint { blocks: self.blocks_decoded@, number: *expected_rst_num },
                    ),
                );
                *expected_rst_num = (*expected_rst_num + 1) % 8;
                Ok(())
            },
            Err(JpegError::EOF) => {
                format.grb.extend_from_slice(huffman.view_buffer());
                Err(JpegError::EOF)
            },
            Err(e) => Err(e),
        }
    }

    /// Decodes the blocks of the MCU at row `mcu_y` and column `mcu_x` of
    /// the grid of the scan: for a scan of several components, for each of
    /// them a rectangle of blocks as wide and as high as its sampling
    /// factors say; for a scan of one component, one block.
    fn decode_mcu(
        &mut self,
        frame: &FrameInfo,
        scan: &mut Scan,
        mcu_y: usize,
        mcu_x: usize,
        huffman: &mut HuffmanDecoder,
        eob_run: &mut u16,
        dc_predictors: &mut [i16; MAX_COMPONENTS],
        format: &mut FormatInfo,
    ) -> (r: JpegResult<()>)
        requires
            old(self).wf(),
            old(huffman).wf(),
            frame.wf(),
            old(self).allocated(frame),
            old(scan).info.wf(frame.components@.len()),
            old(self).tables_ready(&old(scan).info),
            mcu_y < scan_height(frame, &old(scan).info),
            mcu_x < scan_width(frame, &old(scan).info),
        ensures
            final(self).wf(),
            final(huffman).wf(),
            final(self).same_setup(old(self)),
            final(self).restarts() == old(self).restarts(),
            final(scan).info == old(scan).info,
            final(scan).raw_header == old(scan).raw_header,
            final(scan).coefficients == old(scan).coefficients,
            final(format).pge == old(format).pge,
            advanced(&old(self).input, &final(self).input),
            no_further_ahead(old(huffman), final(huffman), &old(self).input, &final(self).input),
            final(self).decoded_since(old(self)),
            r is Ok ==> (final(self).blocks().len() > old(self).blocks().len()
                ==> final(self).blocks().last().done),
            r matches Err(e) ==> (e is EOF ==> final(self).broke_at_last(
                old(self),
                final(scan).truncation,
            )),
            match r {
                Ok(_) => {
                    &&& final(self).blocks_decoded() == old(self).blocks_decoded() + mcu_block_count(
                        frame,
                        &old(scan).info,
                    )
                    &&& final(self).visited() == old(self).visited() + mcu_blocks(
                        frame,
                        &old(scan).info,
                        mcu_y as int,
                        mcu_x as int,
                    )
                    &&& final(scan).truncation == old(scan).truncation
                    &&& *final(format) == *old(format)
                },
                Err(e) => {
                    &&& is_decoding_error(e)
                    &&& is_block_error(e, &final(self).input) || ended_early(
                        e,
                        &final(self).input,
                        old(self).start_byte,
                    )
                    &&& e is EOF ==> final(scan).truncation is Some && final(self).input.processed()
                        >= old(self).start_byte && broke_off(
                        old(self).visited(),
                        final(self).visited(),
                        final(scan).truncation,
                        mcu_blocks(frame, &old(scan).info, mcu_y as int, mcu_x as int),
                    )
                    &&& !(e is EOF) ==> broke_off(
                        old(self).visited(),
                        final(self).visited(),
                        None,
                        mcu_blocks(frame, &old(scan).info, mcu_y as int, mcu_x as int),
                    )
                },
            },
    {
        let count = scan.info.component_indices.len();
        proof {
            assert(taken(&old(self).input, &self.input) =~= Seq::<u8>::empty());
        }
        if count == 1 {
            let index = scan.info.component_indices[0];
            let component = frame.components[index];
            assert((mcu_y * component.size_in_block.width + mcu_x) * 64 + 64
                <= component.coefficient_count()) by (nonlinear_arith)
                requires
                    0 <= mcu_y < component.size_in_block.height,
                    0 <= mcu_x < component.size_in_block.width,
                    component.coefficient_count() == component.size_in_block.width
                        * component.size_in_block.height * 64,
            ;
            let mut predictor = dc_predictors[0];
            let ghost entered = *self;
            proof {
                self.lemma_decoded_refl();
            }
            let r = self.decode_block(
                mcu_y,
                mcu_x,
                0,
                &component,
                scan,
                huffman,
                eob_run,
                &mut predictor,
                format,
            );
            dc_predictors[0] = predictor;
            proof {
                let place = BlockPlace { component: 0, y: mcu_y as int, x: mcu_x as int };
                assert(old(self).visited().push(place) =~= old(self).visited() + seq![place]);
                if r is Err {
                    assert(self.visited().skip(old(self).visited().len() as int).push(place)
                        =~= seq![place]);
                }
            }
            return r;
        }
        proof {
            assert(old(self).visited() + Seq::<BlockPlace>::empty() =~= old(self).visited());
            self.lemma_decoded_refl();
        }
        let mut i: usize = 0;
        while i < count
            invariant
                i <= count,
                1 < count == scan.info.component_indices@.len(),
                self.wf(),
                huffman.wf(),
                frame.wf(),
                self.allocated(frame),
                scan.info.wf(frame.components@.len()),
                self.tables_ready(&scan.info),
                mcu_y < frame.size_in_mcu.height,
                mcu_x < frame.size_in_mcu.width,
                self.same_setup(old(self)),
                self.restarts() == old(self).restarts(),
                advanced(&old(self).input, &self.input),
                no_further_ahead(old(huffman), huffman, &old(self).input, &self.input),
                self.decoded_since(old(self)),
                self.blocks().len() > old(self).blocks().len() ==> self.blocks().last().done,
                scan.info == old(scan).info,
                scan.raw_header == old(scan).raw_header,
                scan.coefficients == old(scan).coefficients,
                scan.truncation == old(scan).truncation,
                *format == *old(format),
                self.blocks_decoded() == old(self).blocks_decoded() + blocks_per_mcu(
                    frame,
                    &scan.info,
                    i as int,
                ),
                self.visited() == old(self).visited() + mcu_places(
                    frame,
                    &scan.info,
                    mcu_y as int,
                    mcu_x as int,
                    i as int,
                ),
            decreases count - i,
        {
            let index = scan.info.component_indices[i];
            let component = frame.components[index];
            let v = component.vertical_sampling_factor as usize;
            let h = component.horizontal_sampling_factor as usize;
            assert(component.wf());
            let mut predictor = dc_predictors[i];
            let ghost base = self.blocks_decoded();
            let ghost seen = self.visited();
            proof {
                assert(seen + rectangle_places(i as int, h as int, v as int, mcu_y as int, mcu_x as int, 0)
                    =~= seen);
                assert(0 * h == 0) by (nonlinear_arith);
            }
            let mut block_y_offset: usize = 0;
            while block_y_offset < v
                invariant
                    block_y_offset <= v,
                    i < count == scan.info.component_indices@.len(),
                    index == scan.info.component_indices@[i as int],
                    component == frame.components@[index as int],
                    v == component.vertical_sampling_factor,
                    h == component.horizontal_sampling_factor,
                    component.wf(),
                    self.wf(),
                    huffman.wf(),
                    frame.wf(),
                    self.allocated(frame),
                    scan.info.wf(frame.components@.len()),
                    self.tables_ready(&scan.info),
                    mcu_y < frame.size_in_mcu.height,
                    mcu_x < frame.size_in_mcu.width,
                    self.same_setup(old(self)),
                    self.restarts() == old(self).restarts(),
                    advanced(&old(self).input, &self.input),
                    no_further_ahead(old(huffman), huffman, &old(self).input, &self.input),
                    self.decoded_since(old(self)),
                    self.blocks().len() > old(self).blocks().len() ==> self.blocks().last().done,
                    scan.info == old(scan).info,
                    scan.raw_header == old(scan).raw_header,
                    scan.coefficients == old(scan).coefficients,
                    scan.truncation == old(scan).truncation,
                    *format == *old(format),
                    self.blocks_decoded() == base + block_y_offset * h,
                    seen == old(self).visited() + mcu_places(
                        frame,
                        &scan.info,
                        mcu_y as int,
                        mcu_x as int,
                        i as int,
                    ),
                    1 < count == scan.info.component_indices@.len(),
                    self.visited() == seen + rectangle_places(
                        i as int,
                        h as int,
                        v as int,
                        mcu_y as int,
                        mcu_x as int,
                        block_y_offset * h,
                    ),
                decreases v - block_y_offset,
            {
                let ghost row_base = self.blocks_decoded();
                let mut block_x_offset: usize = 0;
                while block_x_offset < h
                    invariant
                        block_x_offset <= h,
                        block_y_offset < v,
                        i < count == scan.info.component_indices@.len(),
                        index == scan.info.component_indices@[i as int],
                        component == frame.components@[index as int],
                        v == component.vertical_sampling_factor,
                        h == component.horizontal_sampling_factor,
                        component.wf(),
                        self.wf(),
                        huffman.wf(),
                        frame.wf(),
                        self.allocated(frame),
                        scan.info.wf(frame.components@.len()),
                        self.tables_ready(&scan.info),
                        mcu_y < frame.size_in_mcu.height,
                        mcu_x < frame.size_in_mcu.width,
                        self.same_setup(old(self)),
                        self.restarts() == old(self).restarts(),
                        advanced(&old(self).input, &self.input),
                        no_further_ahead(old(huffman), huffman, &old(self).input, &self.input),
                        self.decoded_since(old(self)),
                        self.blocks().len() > old(self).blocks().len() ==> self.blocks().last().done,
                        scan.info == old(scan).info,
                        scan.raw_header == old(scan).raw_header,
                        scan.coefficients == old(scan).coefficients,
                        scan.truncation == old(scan).truncation,
                        *format == *old(format),
                        self.blocks_decoded() == row_base + block_x_offset,
                        seen == old(self).visited() + mcu_places(
                            frame,
                            &scan.info,
                            mcu_y as int,
                            mcu_x as int,
                            i as int,
                        ),
                        1 < count == scan.info.component_indices@.len(),
                        self.visited() == seen + rectangle_places(
                            i as int,
                            h as int,
                            v as int,
                            mcu_y as int,
                            mcu_x as int,
                            block_y_offset * h + block_x_offset,
                        ),
                    decreases h - block_x_offset,
                {
                    assert(mcu_y * v + block_y_offset < component.size_in_block.height && mcu_x * h
                        + block_x_offset < component.size_in_block.width) by (nonlinear_arith)
                        requires
                            0 <= mcu_y < frame.size_in_mcu.height,
                            0 <= mcu_x < frame.size_in_mcu.width,
                            0 <= block_y_offset < v,
                            0 <= block_x_offset < h,
                            component.size_in_block.height == frame.size_in_mcu.height * v,
                            component.size_in_block.width == frame.size_in_mcu.width * h,
                    ;
                    let block_y = mcu_y * v + block_y_offset;
                    let block_x = mcu_x * h + block_x_offset;
                    assert((block_y * component.size_in_block.width + block_x) * 64 + 64
                        <= component.coefficient_count()) by (nonlinear_arith)
                        requires
                            0 <= block_y < component.size_in_block.height,
                            0 <= block_x < component.size_in_block.width,
                            component.coefficient_count() == component.size_in_block.width
                                * component.size_in_block.height * 64,
                    ;
                    let ghost before_block = self.input;
                    let ghost entered = *self;
                    let decoded = self.decode_block(
                        block_y,
                        block_x,
                        i,
                        &component,
                        scan,
                        huffman,
                        eob_run,
                        &mut predictor,
                        format,
                    );
                    proof {
                        lemma_advanced_trans(&old(self).input, &before_block, &self.input);
                        self.lemma_decoded_trans(old(self), &entered);
                    }
                    match decoded {
                        Ok(_) => {},
                        Err(e) => {
                            proof {
                                let so_far = rectangle_places(
                                    i as int,
                                    h as int,
                                    v as int,
                                    mcu_y as int,
                                    mcu_x as int,
                                    block_y_offset * h + block_x_offset,
                                );
                                let place = BlockPlace {
                                    component: i as int,
                                    y: block_y as int,
                                    x: block_x as int,
                                };
                                let before = mcu_places(
                                    frame,
                                    &scan.info,
                                    mcu_y as int,
                                    mcu_x as int,
                                    i as int,
                                );
                                lemma_rectangle_push(
                                    i as int,
                                    h as int,
                                    v as int,
                                    mcu_y as int,
                                    mcu_x as int,
                                    block_y_offset as int,
                                    block_x_offset as int,
                                );
                                assert(block_y_offset * h + block_x_offset + 1 <= h * v)
                                    by (nonlinear_arith)
                                    requires
                                        0 <= block_y_offset < v,
                                        0 <= block_x_offset < h,
                                ;
                                lemma_rectangle_within_mcu(
                                    frame,
                                    &scan.info,
                                    mcu_y as int,
                                    mcu_x as int,
                                    i as int,
                                    block_y_offset * h + block_x_offset + 1,
                                    count as int,
                                );
                                assert(self.visited() =~= old(self).visited() + (before + so_far));
                                assert(self.visited().skip(old(self).visited().len() as int)
                                    =~= before + so_far);
                                assert(self.visited().skip(old(self).visited().len() as int).push(
                                    place,
                                ) =~= before + so_far.push(place));
                            }
                            return Err(e);
                        },
                    }
                    proof {
                        lemma_rectangle_push(
                            i as int,
                            h as int,
                            v as int,
                            mcu_y as int,
                            mcu_x as int,
                            block_y_offset as int,
                            block_x_offset as int,
                        );
                        let so_far = rectangle_places(
                            i as int,
                            h as int,
                            v as int,
                            mcu_y as int,
                            mcu_x as int,
                            block_y_offset * h + block_x_offset,
                        );
                        let place = BlockPlace {
                            component: i as int,
                            y: block_y as int,
                            x: block_x as int,
                        };
                        assert((seen + so_far).push(place) =~= seen + so_far.push(place));
                    }
                    block_x_offset += 1;
                }
                assert((block_y_offset + 1) * h == block_y_offset * h + h) by (nonlinear_arith);
                block_y_offset += 1;
            }
            dc_predictors[i] = predictor;
            assert(blocks_per_mcu(frame, &scan.info, i + 1) == blocks_per_mcu(
                frame,
                &scan.info,
                i as int,
            ) + h * v);
            assert(v * h == h * v) by (nonlinear_arith);
            proof {
                let before = mcu_places(frame, &scan.info, mcu_y as int, mcu_x as int, i as int);
                let rectangle = rectangle_places(
                    i as int,
                    h as int,
                    v as int,
                    mcu_y as int,
                    mcu_x as int,
                    h * v,
                );
                assert(mcu_places(frame, &scan.info, mcu_y as int, mcu_x as int, i + 1) == before
                    + rectangle);
                assert((old(self).visited() + before) + rectangle =~= old(self).visited() + (before
                    + rectangle));
            }
            i += 1;
        }
        Ok(())
    }
}

impl JpegDecoder {
    /// `self` is `pre` with the same tables, the same storage for
    /// coefficients in size, and the same marks of the marker loop.
    spec fn same_tables(&self, pre: &JpegDecoder) -> bool {
        &&& self.quantization_tables == pre.quantization_tables
        &&& self.restart_interval == pre.restart_interval
        &&& self.is_mjpeg == pre.is_mjpeg
        &&& self.n_scan_processed == pre.n_scan_processed
        &&& self.header_only == pre.header_only
        &&& self.eoi_end == pre.eoi_end
        &&& self.markers == pre.markers
        &&& pre.handoff_recorded ==> self.handoff_recorded
        &&& self.start_byte == pre.start_byte || self.start_byte == 0
    }

    /// Decodes the entropy-coded data of a scan block by block: the grid of
    /// MCUs row by row, and each row from left to right. At the head of a
    /// row the decoder records a hand-off, once it is past the garbage ahead
    /// of the entropy-coded data. Between MCUs it takes the restart markers
    /// as the restart interval has them due.
    ///
    /// A scan that is decoded to its end has decoded the blocks that
    /// `scan_places` lists, in that order, which are as many as
    /// `scan_block_count` says, and has restarted where `scan_restarts` says.
    #[verifier::spinoff_prover]
    #[verifier::rlimit(100)]
    fn decode_scan(&mut self, frame: &FrameInfo, scan: &mut Scan, format: &mut FormatInfo) -> (r:
        JpegResult<()>)
        requires
            old(self).wf(),
            frame.wf(),
            old(self).allocated(frame),
            old(scan).info.wf(frame.components@.len()),
            old(scan).truncation is None,
        ensures
            final(self).wf(),
            final(self).allocated(frame),
            final(self).same_tables(old(self)),
            advanced(&old(self).input, &final(self).input),
            final(self).decoded_since(old(self)),
            r is Ok ==> (final(self).blocks().len() > old(self).blocks().len()
                ==> final(self).blocks().last().done),
            r matches Err(e) ==> (e is EOF ==> final(self).broke_at_last(
                old(self),
                final(scan).truncation,
            )),
            final(scan).info == old(scan).info,
            final(scan).raw_header == old(scan).raw_header,
            final(scan).coefficients == old(scan).coefficients,
            old(self).missing_table(frame, &old(scan).info) matches Some(text) ==> {
                &&& r matches Err(e) && e.is_malformatted(text)
                &&& final(self).input == old(self).input
                &&& *final(format) == *old(format)
                &&& *final(scan) == *old(scan)
                &&& final(self).coefficients == old(self).coefficients
                &&& final(self).visited() == old(self).visited()
                &&& final(self).blocks_decoded() == old(self).blocks_decoded()
                &&& final(self).restarts() == old(self).restarts()
            },
            old(self).missing_table(frame, &old(scan).info) is None ==> (r matches Err(e)
                ==> is_scan_error(e, &final(self).input, old(self).start_byte)),
            match r {
                Ok(_) => {
                    &&& final(self).blocks_decoded() == old(self).blocks_decoded()
                        + scan_block_count(frame, &old(scan).info)
                    &&& final(self).visited() == old(self).visited() + scan_places(
                        frame,
                        &old(scan).info,
                    )
                    &&& final(self).restarts() == old(self).restarts() + scan_restarts(
                        old(self).blocks_decoded(),
                        scan_height(frame, &old(scan).info) * scan_width(frame, &old(scan).info),
                        mcu_block_count(frame, &old(scan).info),
                        old(self).restart_interval as int,
                    )
                    &&& final(scan).truncation == old(scan).truncation
                    &&& final(format).grb == old(format).grb
                    &&& old(self).quantization_set(frame, &old(scan).info)
                    &&& old(self).start_byte == 0 ==> exists|marks: Seq<RowMark>|
                        rows_handed_off(
                            old(format).handoff@,
                            final(format).handoff@,
                            scan_height(frame, &old(scan).info),
                            old(self).n_scan_processed,
                            marks,
                            old(self).input.processed(),
                            final(self).input.processed(),
                        )
                },
                Err(e) => {
                    &&& e is EOF || e is Malformatted
                    &&& e is EOF ==> final(self).input.processed() >= final(self).start_byte
                    &&& e is EOF ==> broke_off(
                        old(self).visited(),
                        final(self).visited(),
                        final(scan).truncation,
                        scan_places(frame, &old(scan).info),
                    )
                    &&& !(e is EOF) && old(self).missing_table(frame, &old(scan).info) is None
                        ==> broke_off(
                        old(self).visited(),
                        final(self).visited(),
                        None,
                        scan_places(frame, &old(scan).info),
                    )
                },
            },
    {
        let count = scan.info.component_indices.len();
        proof {
            assert(taken(&old(self).input, &self.input) =~= Seq::<u8>::empty());
            self.lemma_decoded_refl();
        }
        // Every table that the scan takes must have been installed.
        let mut k: usize = 0;
        while k < count
            invariant
                k <= count == scan.info.component_indices@.len(),
                frame.wf(),
                self.wf(),
                *self == *old(self),
                *scan == *old(scan),
                *format == *old(format),
                self.allocated(frame),
                advanced(&old(self).input, &self.input),
                scan.info.wf(frame.components@.len()),
                forall|j: int|
                    0 <= j < k ==> self.quantization_tables@[frame.components@[(
                    #[trigger] scan.info.component_indices@[j]) as int].quantization_table_index as int]
                        is Some,
            decreases count - k,
        {
            let index = scan.info.component_indices[k];
            let component = frame.components[index];
            assert(component.wf());
            if self.quantization_tables[component.quantization_table_index].is_none() {
                return Err(JpegError::malformatted("use of unset quantization table"));
            }
            k += 1;
        }
        assert(old(self).quantization_set(frame, &old(scan).info));
        if self.is_mjpeg {
            fill_default_mjpeg_tables(
                &scan.info,
                &mut self.dc_huffman_tables,
                &mut self.ac_huffman_tables,
            );
        }
        proof {
            assert forall|k: int| 0 <= k < count implies #[trigger] scan.info.dc_table_indices@[k]
                <= 3 by {
                assert(scan.info.component_indices@[k] < frame.components@.len());
            }
            assert forall|k: int| 0 <= k < count implies #[trigger] scan.info.ac_table_indices@[k]
                <= 3 by {
                assert(scan.info.component_indices@[k] < frame.components@.len());
            }
        }
        if scan.info.spectral_selection_start == 0 && !all_set(
            &self.dc_huffman_tables,
            &scan.info.dc_table_indices,
        ) {
            return Err(JpegError::malformatted("scan makes use of unset dc huffman table"));
        }
        if scan.info.spectral_selection_end > 0 && !all_set(
            &self.ac_huffman_tables,
            &scan.info.ac_table_indices,
        ) {
            return Err(JpegError::malformatted("scan makes use of unset ac huffman table"));
        }
        assert(old(self).missing_table(frame, &old(scan).info) is None);
        let is_interleaved = count > 1;
        let mut huffman = HuffmanDecoder::new(self.start_byte);
        let mut dc_predictors = [0i16; MAX_COMPONENTS];
        let mut n_mcu_left_until_restart = self.restart_interval;
        let mut expected_rst_num: u8 = 0;
        let mut eob_run: u16 = 0;
        let first = frame.components[scan.info.component_indices[0]];
        let height = if is_interleaved {
            frame.size_in_mcu.height
        } else {
            first.size_in_block.height
        } as usize;
        let width = if is_interleaved {
            frame.size_in_mcu.width
        } else {
            first.size_in_block.width
        } as usize;
        let ghost start = self.blocks_decoded();
        let ghost per_mcu = mcu_block_count(frame, &scan.info);
        let ghost mut marks: Seq<RowMark> = Seq::empty();
        let mut mcu_y: usize = 0;
        let ghost total = height * width;
        let ghost mut done: int = 0;
        assert(mcu_y * width * per_mcu == 0 && mcu_y * width == 0) by (nonlinear_arith)
            requires
                mcu_y == 0,
        ;
        assert(total >= 0) by (nonlinear_arith)
            requires
                total == height * width,
        ;
        proof {
            assert(self.visited() + Seq::<BlockPlace>::empty() =~= self.visited());
            assert(self.restarts() + first_restarts(start, per_mcu, self.restart_interval as int, 0)
                =~= self.restarts());
            if self.restart_interval > 0 && 0 < total {
                lemma_restarts_step(0, total, self.restart_interval as int);
            }
        }
        while mcu_y < height
            invariant
                mcu_y <= height,
                height == scan_height(frame, &scan.info),
                width == scan_width(frame, &scan.info),
                per_mcu == mcu_block_count(frame, &scan.info),
                self.wf(),
                huffman.wf(),
                frame.wf(),
                self.allocated(frame),
                scan.info.wf(frame.components@.len()),
                self.tables_ready(&scan.info),
                self.same_tables(old(self)),
                advanced(&old(self).input, &self.input),
                old(self).quantization_set(frame, &old(scan).info),
                old(self).missing_table(frame, &old(scan).info) is None,
                self.restart_interval > 0 ==> n_mcu_left_until_restart > 0,
                expected_rst_num <= 7,
                total == height * width,
                done == mcu_y * width,
                done <= total,
                self.restarts() == old(self).restarts() + first_restarts(
                    start,
                    per_mcu,
                    self.restart_interval as int,
                    restarts_done(done, total, self.restart_interval as int),
                ),
                self.restart_interval > 0 && done < total ==> n_mcu_left_until_restart
                    == self.restart_interval - done % (self.restart_interval as int)
                    && expected_rst_num == (done / (self.restart_interval as int)) % 8,
                scan.info == old(scan).info,
                scan.raw_header == old(scan).raw_header,
                scan.coefficients == old(scan).coefficients,
                scan.truncation == old(scan).truncation,
                old(scan).truncation is None,
                format.grb == old(format).grb,
                self.blocks_decoded() == start + mcu_y * width * per_mcu,
                self.visited() == old(self).visited() + rows_places(frame, &scan.info, mcu_y as int),
                old(self).input.wf(),
                self.decoded_since(old(self)),
                self.blocks().len() > old(self).blocks().len() ==> self.blocks().last().done,
                old(self).start_byte == 0 ==> self.start_byte == 0 && rows_handed_off(
                    old(format).handoff@,
                    format.handoff@,
                    mcu_y as int,
                    old(self).n_scan_processed,
                    marks,
                    old(self).input.processed(),
                    self.input.processed(),
                ),
            decreases height - mcu_y,
        {
            if self.in_pge() {
                self.start_byte = 0;
                huffman.end_pge();
                format.pge.extend_from_slice(huffman.get_pge());
            }
            let ghost handed = format.handoff@;
            if self.start_byte == 0 {
                let (overhang_byte, n_overhang_bit) = huffman.handover_byte();
                let processed = self.input.processed_len();
                let segment_size = processed;
                format.handoff.push(
                    ThreadHandoffExt {
                        start_scan: (self.n_scan_processed % 65536) as u16,
                        end_scan: (self.n_scan_processed % 65536) as u16,
                        mcu_y_start: mcu_y as u16,
                        segment_size: (segment_size as u64 % 0x1_0000_0000) as u32,
                        overhang_byte,
                        n_overhang_bit,
                        // The DC values at the head of the row are not
                        // known here: the field is reserved.
                        last_dc: [0u16; 4],
                    },
                );
                self.handoff_recorded = true;
                let ghost marked = marks;
                proof {
                    self.input.lemma_counted_from_in_range();
                    lemma_processed_grows(&old(self).input, &self.input);
                    marks = marked.push(
                        RowMark { processed: processed as nat, state: huffman.state() },
                    );
                    if old(self).start_byte == 0 {
                        let before = old(format).handoff@;
                        assert forall|row: int| 0 <= row < mcu_y + 1 implies old(self).input.processed() <= (#[trigger] marks[row]).processed
                            <= self.input.processed() by {
                            if row < mcu_y {
                                assert(marks[row] == marked[row]);
                            }
                        }
                        assert forall|i: int, j: int| 0 <= i <= j < mcu_y + 1 implies (
                        #[trigger] marks[i]).processed <= (#[trigger] marks[j]).processed by {
                            if j < mcu_y {
                                assert(marks[i] == marked[i]);
                                assert(marks[j] == marked[j]);
                            } else if i < mcu_y {
                                assert(marks[i] == marked[i]);
                            }
                        }
                        assert(format.handoff@ == handed.push(format.handoff@.last()));
                        assert forall|row: int| 0 <= row < mcu_y + 1 implies {
                            let handoff = #[trigger] format.handoff@[before.len() + row];
                            &&& handoff.mcu_y_start == row
                            &&& handoff.start_scan == old(self).n_scan_processed % 65536
                            &&& handoff.end_scan == old(self).n_scan_processed % 65536
                            &&& handoff.last_dc@ == seq![0u16, 0u16, 0u16, 0u16]
                            &&& records(handoff, marks[row])
                        } by {
                            if row < mcu_y {
                                assert(format.handoff@[before.len() + row] == handed[before.len()
                                    + row]);
                                assert(marks[row] == marked[row]);
                            } else {
                                assert(format.handoff@.last().last_dc@ =~= seq![
                                    0u16,
                                    0u16,
                                    0u16,
                                    0u16,
                                ]);
                            }
                        }
                    }
                }
            }
            let ghost row_start = self.blocks_decoded();
            let ghost row_seen = self.visited();
            proof {
                assert(row_seen + Seq::<BlockPlace>::empty() =~= row_seen);
            }
            let mut mcu_x: usize = 0;
            while mcu_x < width
                invariant
                    mcu_x <= width,
                    mcu_y < height,
                    height == scan_height(frame, &scan.info),
                    width == scan_width(frame, &scan.info),
                    per_mcu == mcu_block_count(frame, &scan.info),
                    self.wf(),
                    huffman.wf(),
                    frame.wf(),
                    self.allocated(frame),
                    scan.info.wf(frame.components@.len()),
                    self.tables_ready(&scan.info),
                    self.same_tables(old(self)),
                    advanced(&old(self).input, &self.input),
                    old(self).quantization_set(frame, &old(scan).info),
                    old(self).missing_table(frame, &old(scan).info) is None,
                    self.restart_interval > 0 ==> n_mcu_left_until_restart > 0,
                    expected_rst_num <= 7,
                    total == height * width,
                    done == mcu_y * width + mcu_x,
                    done <= total,
                    row_start == start + mcu_y * width * per_mcu,
                    self.restarts() == old(self).restarts() + first_restarts(
                        start,
                        per_mcu,
                        self.restart_interval as int,
                        restarts_done(done, total, self.restart_interval as int),
                    ),
                    self.restart_interval > 0 && done < total ==> n_mcu_left_until_restart
                        == self.restart_interval - done % (self.restart_interval as int)
                        && expected_rst_num == (done / (self.restart_interval as int)) % 8,
                    scan.info == old(scan).info,
                    scan.raw_header == old(scan).raw_header,
                    scan.coefficients == old(scan).coefficients,
                    scan.truncation == old(scan).truncation,
                    old(scan).truncation is None,
                    format.grb == old(format).grb,
                    self.blocks_decoded() == row_start + mcu_x * per_mcu,
                    self.visited() == row_seen + row_places(
                        frame,
                        &scan.info,
                        mcu_y as int,
                        mcu_x as int,
                    ),
                    row_seen == old(self).visited() + rows_places(frame, &scan.info, mcu_y as int),
                    old(self).input.wf(),
                    self.decoded_since(old(self)),
                    self.blocks().len() > old(self).blocks().len() ==> self.blocks().last().done,
                    old(self).start_byte == 0 ==> self.start_byte == 0 && rows_handed_off(
                        old(format).handoff@,
                        format.handoff@,
                        mcu_y + 1,
                        old(self).n_scan_processed,
                        marks,
                        old(self).input.processed(),
                        self.input.processed(),
                    ),
                decreases width - mcu_x,
            {
                let ghost before_mcu = self.input;
                let ghost entered = *self;
                let ghost before_visited = self.visited();
                let decoded = self.decode_mcu(
                    frame,
                    scan,
                    mcu_y,
                    mcu_x,
                    &mut huffman,
                    &mut eob_run,
                    &mut dc_predictors,
                    format,
                );
                proof {
                    lemma_advanced_trans(&old(self).input, &before_mcu, &self.input);
                    self.lemma_decoded_trans(old(self), &entered);
                }
                match decoded {
                    Ok(_) => {},
                    Err(e) => {
                        proof {
                            if e is EOF {
                                let start_places = old(self).visited();
                                let rows = rows_places(frame, &scan.info, mcu_y as int);
                                let row = row_places(
                                    frame,
                                    &scan.info,
                                    mcu_y as int,
                                    mcu_x as int,
                                );
                                let part = self.visited().skip(before_visited.len() as int).push(
                                    place_of(scan.truncation->0),
                                );
                                lemma_mcu_within_scan(
                                    frame,
                                    &scan.info,
                                    mcu_y as int,
                                    mcu_x as int,
                                    part,
                                );
                                let delta = self.visited().skip(before_visited.len() as int);
                                assert(self.visited() =~= before_visited + delta);
                                assert(before_visited =~= start_places + (rows + row));
                                assert(self.visited().skip(start_places.len() as int) =~= rows + (
                                row + delta));
                                assert(self.visited().skip(start_places.len() as int).push(
                                    place_of(scan.truncation->0),
                                ) =~= rows + (row + part));
                            } else {
                                let start_places = old(self).visited();
                                let rows = rows_places(frame, &scan.info, mcu_y as int);
                                let row = row_places(
                                    frame,
                                    &scan.info,
                                    mcu_y as int,
                                    mcu_x as int,
                                );
                                let delta = self.visited().skip(before_visited.len() as int);
                                lemma_mcu_within_scan(
                                    frame,
                                    &scan.info,
                                    mcu_y as int,
                                    mcu_x as int,
                                    delta,
                                );
                                assert(self.visited() =~= before_visited + delta);
                                assert(before_visited =~= start_places + (rows + row));
                                assert(self.visited().skip(start_places.len() as int) =~= rows + (
                                row + delta));
                            }
                        }
                        return Err(e);
                    },
                }
                proof {
                    assert((mcu_x + 1) * per_mcu == mcu_x * per_mcu + per_mcu)
                        by (nonlinear_arith);
                    let row = row_places(frame, &scan.info, mcu_y as int, mcu_x as int);
                    let mcu = mcu_blocks(frame, &scan.info, mcu_y as int, mcu_x as int);
                    assert(row_places(frame, &scan.info, mcu_y as int, mcu_x + 1) == row + mcu);
                    assert((row_seen + row) + mcu =~= row_seen + (row + mcu));
                }
                let ghost interval = self.restart_interval as int;
                proof {
                    assert(done + 1 <= total && (done + 1 == total <==> mcu_x == width - 1 && mcu_y
                        == height - 1)) by (nonlinear_arith)
                        requires
                            done == mcu_y * width + mcu_x,
                            total == height * width,
                            0 <= mcu_x < width,
                            0 <= mcu_y < height,
                    ;
                    assert(self.blocks_decoded() == start + (done + 1) * per_mcu)
                        by (nonlinear_arith)
                        requires
                            self.blocks_decoded() == row_start + mcu_x * per_mcu + per_mcu,
                            row_start == start + mcu_y * width * per_mcu,
                            done == mcu_y * width + mcu_x,
                    ;
                    if interval > 0 {
                        lemma_restarts_step(done, total, interval);
                        if done + 1 < total {
                            lemma_restarts_step(done + 1, total, interval);
                        }
                    }
                }
                if self.restart_interval > 0 {
                    n_mcu_left_until_restart -= 1;
                    let is_last_mcu = mcu_x == width - 1 && mcu_y == height - 1;
                    if n_mcu_left_until_restart == 0 {
                        if !is_last_mcu {
                            let ghost so_far = first_restarts(
                                start,
                                per_mcu,
                                interval,
                                done / interval,
                            );
                            let ghost point = RestartPoint {
                                blocks: self.blocks_decoded(),
                                number: expected_rst_num,
                            };
                            proof {
                                assert((done / interval + 1) * interval * per_mcu == (done + 1)
                                    * per_mcu) by (nonlinear_arith)
                                    requires
                                        (done / interval + 1) * interval == done + 1,
                                ;
                                assert(first_restarts(start, per_mcu, interval, done / interval + 1)
                                    =~= so_far.push(point));
                                assert((old(self).restarts() + so_far).push(point) =~= old(self).restarts() + so_far.push(point));
                            }
                            let ghost before_restart = self.input;
                            let ghost stood = *self;
                            let restarted = self.restart(
                                &mut huffman,
                                &mut dc_predictors,
                                &mut eob_run,
                                &mut expected_rst_num,
                                format,
                            );
                            proof {
                                lemma_advanced_trans(
                                    &old(self).input,
                                    &before_restart,
                                    &self.input,
                                );
                                self.lemma_decoded_same(old(self), &stood);
                            }
                            match restarted {
                                Ok(_) => {},
                                Err(e) => {
                                    proof {
                                        self.input.lemma_counted_from_in_range();
                                        let rows = rows_places(frame, &scan.info, mcu_y as int);
                                        let row = row_places(
                                            frame,
                                            &scan.info,
                                            mcu_y as int,
                                            mcu_x as int,
                                        );
                                        let mcu = mcu_blocks(
                                            frame,
                                            &scan.info,
                                            mcu_y as int,
                                            mcu_x as int,
                                        );
                                        lemma_mcu_within_scan(
                                            frame,
                                            &scan.info,
                                            mcu_y as int,
                                            mcu_x as int,
                                            mcu,
                                        );
                                        assert(self.visited() =~= old(self).visited() + (rows + (
                                        row + mcu)));
                                        assert(self.visited().skip(
                                            old(self).visited().len() as int,
                                        ) =~= rows + (row + mcu));
                                    }
                                    let starved = match &e {
                                        JpegError::EOF => true,
                                        _ => false,
                                    };
                                    if starved && self.input.processed_len() < self.start_byte {
                                        return Err(
                                            JpegError::malformatted(
                                                "EOF encountered before start_byte",
                                            ),
                                        );
                                    }
                                    return Err(e);
                                },
                            }
                        }
                        n_mcu_left_until_restart = self.restart_interval;
                    }
                }
                proof {
                    done = done + 1;
                    if old(self).start_byte == 0 {
                        lemma_processed_grows(&before_mcu, &self.input);
                        lemma_rows_upto(
                            old(format).handoff@,
                            format.handoff@,
                            mcu_y + 1,
                            old(self).n_scan_processed,
                            marks,
                            old(self).input.processed(),
                            before_mcu.processed(),
                            self.input.processed(),
                        );
                    }
                }
                mcu_x += 1;
            }
            proof {
                assert((mcu_y + 1) * width * per_mcu == mcu_y * width * per_mcu + width * per_mcu)
                    by (nonlinear_arith);
                assert((mcu_y + 1) * width == mcu_y * width + width) by (nonlinear_arith);
                let rows = rows_places(frame, &scan.info, mcu_y as int);
                let row = row_places(frame, &scan.info, mcu_y as int, width as int);
                assert(rows_places(frame, &scan.info, mcu_y + 1) == rows + row);
                assert((old(self).visited() + rows) + row =~= old(self).visited() + (rows + row));
            }
            mcu_y += 1;
        }
        if self.in_pge() {
            format.pge.extend_from_slice(huffman.get_pge());
        }
        proof {
            assert(height * width * per_mcu == scan_block_count(frame, &scan.info)) by {
                if count > 1 {
                } else {
                    assert(height * width * 1 == height * width) by (nonlinear_arith);
                }
            }
        }
        Ok(())
    }
}

/// Whether the scan is a scan of the frame: its header fits the frame, and
/// the coefficients that it holds are 64 for each block of each component.
pub open spec fn scan_fits(scan: &Scan, frame: &FrameInfo) -> bool {
    &&& scan.info.wf(frame.components@.len())
    &&& scan.coefficients matches Some(coefficients) ==> {
        &&& coefficients@.len() == frame.components@.len()
        &&& forall|i: int|
            0 <= i < frame.components@.len() ==> (#[trigger] coefficients@[i])@.len()
                == frame.components@[i].coefficient_count()
    }
}

/// The blocks of all the scans in the order of decoding.
pub open spec fn all_places(frame: &FrameInfo, scans: Seq<Scan>) -> Seq<BlockPlace>
    decreases scans.len(),
{
    if scans.len() == 0 {
        Seq::empty()
    } else {
        all_places(frame, scans.drop_last()) + scan_places(frame, &scans.last().info)
    }
}

/// Whether the scans are scans of the frame.
pub open spec fn scans_fit(scans: Seq<Scan>, frame: &FrameInfo) -> bool {
    forall|i: int| 0 <= i < scans.len() ==> scan_fits(#[trigger] &scans[i], frame)
}

/// Whether the bytes open with the SOI marker.
pub open spec fn starts_with_soi(bytes: Seq<u8>) -> bool {
    bytes.len() >= 2 && bytes[0] == 0xFF && bytes[1] == 0xD8
}

/// Bytes that open with the SOI marker still do when more bytes follow.
proof fn lemma_still_opens(start: Seq<u8>, opened: Seq<u8>, before: Seq<u8>, after: Seq<u8>)
    requires
        opened == start + seq![0xFFu8, 0xD8u8],
        opened.is_prefix_of(before),
        before.is_prefix_of(after),
    ensures
        opened.is_prefix_of(after),
        start.is_prefix_of(after),
        starts_with_soi(after.skip(start.len() as int)),
{
    let at = start.len() as int;
    assert(start =~= opened.subrange(0, at));
    assert(start =~= after.subrange(0, at));
    assert(opened[at] == 0xFF);
    assert(opened[at + 1] == 0xD8);
    assert(before[at] == opened[at]);
    assert(before[at + 1] == opened[at + 1]);
    assert(after[at] == before[at]);
    assert(after[at + 1] == before[at + 1]);
}

/// The bytes taken since a start that open with the SOI marker still do
/// when more bytes are taken.
proof fn lemma_opens_on(start: Seq<u8>, before: Seq<u8>, after: Seq<u8>)
    requires
        start.is_prefix_of(before),
        starts_with_soi(before.skip(start.len() as int)),
        before.is_prefix_of(after),
    ensures
        starts_with_soi(after.skip(start.len() as int)),
{
    let at = start.len() as int;
    assert(before.skip(at)[0] == before[at]);
    assert(before.skip(at)[1] == before[at + 1]);
    assert(after[at] == before[at]);
    assert(after[at + 1] == before[at + 1]);
}

/// Whether the bytes end with the EOI marker.
pub open spec fn ends_with_eoi(bytes: Seq<u8>) -> bool {
    bytes.len() >= 2 && bytes[bytes.len() - 2] == 0xFF && bytes[bytes.len() - 1] == 0xD9
}

impl JpegDecoder {
    /// A decoder as `new` makes it.
    pub closed spec fn fresh(&self) -> bool {
        &&& self.wf()
        &&& self.coefficients@.len() == 0
        &&& self.eoi_end@ is None
        &&& self.markers@.len() == 0
        &&& self.visited@.len() == 0
        &&& self.n_scan_processed == 0
        &&& self.header_only ==> self.start_byte == 0
        &&& self.no_tables()
        &&& self.restart_interval == 0
        &&& !self.is_mjpeg
        &&& !self.handoff_recorded
        &&& self.blocks_decoded@ == 0
        &&& self.restarts@.len() == 0
        &&& self.blocks@.len() == 0
        &&& self.ended@ is None
    }

    /// No quantization table and no Huffman table is installed.
    pub closed spec fn no_tables(&self) -> bool {
        &&& forall|i: int| 0 <= i < 4 ==> #[trigger] self.dc_huffman_tables@[i] is None
        &&& forall|i: int| 0 <= i < 4 ==> #[trigger] self.ac_huffman_tables@[i] is None
        &&& forall|i: int| 0 <= i < 4 ==> #[trigger] self.quantization_tables@[i] is None
    }

    /// The number of MCUs between two restart markers; 0 if there are none.
    pub closed spec fn restart_interval(&self) -> u16 {
        self.restart_interval
    }

    /// Whether the stream has marked itself as Motion JPEG.
    pub closed spec fn is_mjpeg(&self) -> bool {
        self.is_mjpeg
    }

    /// The number of scans taken off the stream, held at `usize::MAX`.
    pub closed spec fn scans_processed(&self) -> usize {
        self.n_scan_processed
    }

    /// The storage for coefficients is empty, or it fits the frame.
    spec fn ready_for(&self, frame: &Option<FrameInfo>) -> bool {
        self.coefficients@.len() == 0 || (frame matches Some(found) && self.allocated(&found))
    }

    /// Makes room for 64 coefficients for each block of each component.
    fn allocate(&mut self, frame: &FrameInfo) -> (r: JpegResult<()>)
        requires
            old(self).wf(),
            frame.wf(),
            old(self).coefficients@.len() == 0,
        ensures
            final(self).wf(),
            final(self).same_but_coefficients(old(self)),
            match r {
                Ok(_) => final(self).allocated(frame) && coefficient_view(final(self).stored())
                    == blank(frame),
                Err(e) => e.is_malformatted("image is too large"@) && final(self).coefficients@.len()
                    == 0,
            },
    {
        let mut coefficients: Vec<Vec<i16>> = Vec::new();
        let mut i: usize = 0;
        while i < frame.components.len()
            invariant
                i <= frame.components@.len(),
                frame.wf(),
                *self == *old(self),
                self.wf(),
                self.coefficients@.len() == 0,
                coefficients@.len() == i,
                forall|k: int|
                    0 <= k < i ==> (#[trigger] coefficients@[k])@.len()
                        == frame.components@[k].coefficient_count(),
                forall|k: int| 0 <= k < i ==> (#[trigger] coefficients@[k])@ == blank(frame)[k],
            decreases frame.components@.len() - i,
        {
            let component = frame.components[i];
            let width = component.size_in_block.width as u64;
            let height = component.size_in_block.height as u64;
            assert(width * height * 64 <= 65535 * 65535 * 64) by (nonlinear_arith)
                requires
                    width <= 65535,
                    height <= 65535,
            ;
            assert(width * height <= 65535 * 65535) by (nonlinear_arith)
                requires
                    width <= 65535,
                    height <= 65535,
            ;
            let count = width * height * 64;
            if count > usize::MAX as u64 {
                return Err(JpegError::malformatted("image is too large"));
            }
            let mut blocks: Vec<i16> = Vec::new();
            blocks.resize(count as usize, 0i16);
            proof {
                assert(blocks@ =~= blank(frame)[i as int]);
            }
            coefficients.push(blocks);
            i += 1;
        }
        self.coefficients = coefficients;
        proof {
            assert(coefficient_view(self.coefficients@) =~= blank(frame));
        }
        Ok(())
    }

    /// `self` is `pre` but for the coefficients.
    spec fn same_but_coefficients(&self, pre: &JpegDecoder) -> bool {
        &&& self.blocks == pre.blocks
        &&& self.input == pre.input
        &&& self.dc_huffman_tables == pre.dc_huffman_tables
        &&& self.ac_huffman_tables == pre.ac_huffman_tables
        &&& self.quantization_tables == pre.quantization_tables
        &&& self.restart_interval == pre.restart_interval
        &&& self.is_mjpeg == pre.is_mjpeg
        &&& self.n_scan_processed == pre.n_scan_processed
        &&& self.header_only == pre.header_only
        &&& self.start_byte == pre.start_byte
        &&& self.handoff_recorded == pre.handoff_recorded
        &&& self.blocks_decoded == pre.blocks_decoded
        &&& self.visited == pre.visited
        &&& self.markers == pre.markers
        &&& self.restarts == pre.restarts
        &&& self.eoi_end == pre.eoi_end
    }

    /// A copy of the coefficients as they stand.
    fn copy_coefficients(&self) -> (copy: Vec<Vec<i16>>)
        ensures
            copy@.len() == self.coefficients@.len(),
            forall|i: int|
                0 <= i < copy@.len() ==> (#[trigger] copy@[i])@ == self.coefficients@[i]@,
    {
        let mut copy: Vec<Vec<i16>> = Vec::new();
        let mut i: usize = 0;
        while i < self.coefficients.len()
            invariant
                i <= self.coefficients@.len(),
                copy@.len() == i,
                forall|k: int| 0 <= k < i ==> (#[trigger] copy@[k])@ == self.coefficients@[k]@,
            decreases self.coefficients@.len() - i,
        {
            let source = &self.coefficients[i];
            let mut blocks: Vec<i16> = Vec::new();
            let mut k: usize = 0;
            while k < source.len()
                invariant
                    k <= source@.len(),
                    blocks@ =~= source@.take(k as int),
                decreases source@.len() - k,
            {
                blocks.push(source[k]);
                k += 1;
            }
            assert(blocks@ =~= source@);
            copy.push(blocks);
            i += 1;
        }
        copy
    }

    /// Whether `scan` has the header that stands at the head of `raw`: the
    /// segment is a scan header of `frame` without a fault, the scan has
    /// what the header says, and its raw header is `retained`, the bytes
    /// retained ahead of the segment, and the segment.
    spec fn scan_header_taken(retained: Seq<u8>, raw: Seq<u8>, frame: &FrameInfo, scan: &Scan) -> bool {
        let head = first_segment(raw);
        &&& segment_payload(head) matches Some(payload) && sos_error(payload, frame) is None
            && is_scan_of(&scan.info, payload, frame)
        &&& scan.raw_header@ == retained + head
    }

    /// Whether `scan` holds a copy of the coefficients as they stand.
    spec fn copied_to(&self, scan: &Scan) -> bool {
        &&& scan.coefficients matches Some(copy) && copy@.len() == self.coefficients@.len()
            && forall|i: int|
            0 <= i < copy@.len() ==> (#[trigger] copy@[i])@ == self.coefficients@[i]@
    }

    /// How `take_scan` has failed with `e` after it took `raw` off the
    /// stream. Either no scan was added: then the header has a fault or
    /// breaks off, or the image is too large for the storage. Or the scan
    /// was added: then its header is sound, and the decoding of its data
    /// has failed; a table was missing, or a code was faulty, or the
    /// stream ended, and then the scan says where it broke off and holds
    /// the coefficients decoded so far, if coefficients are kept at all.
    spec fn scan_failed(
        &self,
        pre: &JpegDecoder,
        retained: Seq<u8>,
        e: JpegError,
        raw: Seq<u8>,
        frame: &FrameInfo,
        before: Seq<Scan>,
        after: Seq<Scan>,
        with_data: bool,
    ) -> bool {
        if after.len() == before.len() {
            ||| is_parse_error(
                e,
                raw,
                match segment_payload(raw) {
                    Some(payload) => sos_error(payload, frame),
                    None => None,
                },
            )
            ||| {
                &&& e.is_malformatted("image is too large"@)
                &&& with_data
                &&& pre.coefficients@.len() == 0
                &&& segment_payload(raw) matches Some(payload) && sos_error(payload, frame) is None
            }
        } else {
            let scan = after.last();
            &&& after.len() == before.len() + 1
            &&& with_data
            &&& Self::scan_header_taken(retained, raw, frame, &scan)
            &&& e is EOF || e is Malformatted
            &&& pre.missing_table(frame, &scan.info) matches Some(text) ==> e.is_malformatted(text)
            &&& e is EOF ==> broke_off(
                pre.visited@,
                self.visited@,
                scan.truncation,
                scan_places(frame, &scan.info),
            )
            &&& if e is EOF && pre.start_byte == 0 {
                self.copied_to(&scan)
            } else {
                scan.coefficients is None
            }
        }
    }

    /// How `take_scan` has added the scan `scan` after it took `raw` off
    /// the stream: the scan has the header at the head of `raw` and did not
    /// break off. Without data, nothing but the header was taken off the
    /// stream. With data, no table was missing, and the scan holds the
    /// coefficients as they stand if decoding proper began at the start of
    /// the stream, and none otherwise.
    spec fn scan_taken(
        &self,
        pre: &JpegDecoder,
        retained: Seq<u8>,
        raw: Seq<u8>,
        frame: &FrameInfo,
        scan: &Scan,
        with_data: bool,
    ) -> bool {
        &&& Self::scan_header_taken(retained, raw, frame, scan)
        &&& scan.truncation is None
        &&& if with_data {
            &&& pre.missing_table(frame, &scan.info) is None
            &&& if pre.start_byte == 0 {
                self.copied_to(scan)
            } else {
                scan.coefficients is None
            }
        } else {
            &&& raw == first_segment(raw)
            &&& scan.coefficients is None
            &&& self.coefficients == pre.coefficients
            &&& self.dc_huffman_tables == pre.dc_huffman_tables
            &&& self.ac_huffman_tables == pre.ac_huffman_tables
        }
    }

    /// Takes a scan off the stream: its header and, unless the decoder
    /// parses headers only, its entropy-coded data. The bytes retained up
    /// to the end of the header are the raw header of the scan. The scan is
    /// added to `scans`, also where its data breaks off or is faulty; it is
    /// not added where its header is. Where the header is at hand, its
    /// fault is the only thing that fails a decoder that parses headers
    /// only.
    #[verifier::spinoff_prover]
    #[verifier::rlimit(60)]
    fn take_scan(&mut self, frame: &FrameInfo, scans: &mut Vec<Scan>, format: &mut Option<
        FormatInfo,
    >) -> (r: JpegResult<()>)
        requires
            old(self).wf(),
            frame.wf(),
            old(self).coefficients@.len() == 0 || old(self).allocated(frame),
            old(self).eoi_end@ is None,
            scans_fit(old(scans)@, frame),
            (*old(format) is None) == old(self).header_only,
            old(self).explained(&Some(*frame)),
            old(self).last_done(),
        ensures
            final(self).explained(&Some(*frame)),
            r is Ok ==> final(self).last_done(),
            old(self).blocks().is_prefix_of(final(self).blocks()),
            final(scans)@.len() == old(scans)@.len() ==> final(self).blocks() == old(self).blocks(),
            final(self).wf(),
            final(self).coefficients@.len() == 0 || final(self).allocated(frame),
            final(self).eoi_end@ is None,
            scans_fit(final(scans)@, frame),
            old(scans)@.is_prefix_of(final(scans)@),
            final(self).markers == old(self).markers,
            r is Ok ==> final(scans)@.len() == old(scans)@.len() + 1 && final(self).visited@ == old(self).visited@ + if *old(format) is Some {
                scan_places(frame, &final(scans)@.last().info)
            } else {
                Seq::<BlockPlace>::empty()
            },
            r is Ok ==> final(self).n_scan_processed == if old(self).n_scan_processed
                < usize::MAX {
                (old(self).n_scan_processed + 1) as usize
            } else {
                usize::MAX
            },
            final(self).header_only == old(self).header_only,
            final(self).start_byte == old(self).start_byte || final(self).start_byte == 0,
            final(self).input.counted_from() == old(self).input.counted_from(),
            old(self).input.consumed().is_prefix_of(final(self).input.consumed()),
            (*final(format) is Some) == (*old(format) is Some),
            final(self).quantization_tables == old(self).quantization_tables,
            final(self).restart_interval == old(self).restart_interval,
            final(self).is_mjpeg == old(self).is_mjpeg,
            final(scans)@.len() <= old(scans)@.len() + 1,
            final(scans)@.len() == old(scans)@.len() ==> final(self).start_byte == old(self).start_byte && final(self).visited@ == old(self).visited@ && final(self).stored() == old(self).stored(),
            final(scans)@.len() > old(scans)@.len() ==> final(self).scan_added(
                old(self),
                match r {
                    Ok(_) => None,
                    Err(e) => Some(e),
                },
                Some(*frame),
                &final(scans)@.last(),
            ),
            ends_where_run_out(r, &final(self).input),
            segment_at_hand(old(self).input.pending()) ==> (sos_error(
                payload_at_hand(&old(self).input),
                frame,
            ) is Some ==> r is Err) && (*old(format) is None ==> (r is Ok) == (sos_error(
                payload_at_hand(&old(self).input),
                frame,
            ) is None) && served_whole(&old(self).input, &final(self).input)),
            match r {
                Ok(_) => {
                    &&& final(self).input.retained() == Seq::<u8>::empty()
                    &&& final(scans)@.len() == old(scans)@.len() + 1
                    &&& *final(format) matches Some(after) ==> *old(format) matches Some(before)
                        && after.grb == before.grb
                    &&& final(self).scan_taken(
                        old(self),
                        old(self).input.retained(),
                        taken(&old(self).input, &final(self).input),
                        frame,
                        &final(scans)@.last(),
                        *old(format) is Some,
                    )
                },
                Err(e) => final(self).scan_failed(
                    old(self),
                    old(self).input.retained(),
                    e,
                    taken(&old(self).input, &final(self).input),
                    frame,
                    old(scans)@,
                    final(scans)@,
                    *old(format) is Some,
                ),
            },
    {
        let info = match parse_sos(&mut self.input, frame) {
            Ok(info) => info,
            Err(e) => {
                return Err(e);
            },
        };
        let ghost parsed = *self;
        let ghost head = taken(&old(self).input, &self.input);
        proof {
            lemma_first_segment(head, head);
        }
        let mut scan = Scan::new(self.input.view_retained_data(), info);
        if self.in_pge() {
            match format {
                Some(format) => {
                    // The garbage ends within the header: what lies behind
                    // `start_byte` is no garbage.
                    let retained = self.input.view_retained_data();
                    let behind = self.input.processed_len() - self.start_byte;
                    let from = if behind >= retained.len() {
                        0
                    } else {
                        retained.len() - behind
                    };
                    let tail = vstd::slice::slice_subrange(retained, from, retained.len());
                    format.pge.extend_from_slice(tail);
                },
                None => {},
            }
        }
        self.input.clear_retained_data();
        match format {
            Some(format) => {
                if self.coefficients.len() == 0 {
                    match self.allocate(frame) {
                        Ok(_) => {},
                        Err(e) => {
                            return Err(e);
                        },
                    }
                }
                let keep_coefficients = self.start_byte == 0;
                let ghost ready = *self;
                proof {
                    assert(ready.explained(&Some(*frame))) by {
                        if old(self).coefficients@.len() == 0 {
                            assert(ready.blocks().len() == 0);
                        }
                    }
                    assert(frame.components@.len() > 0);
                }
                let decoded = self.decode_scan(frame, &mut scan, format);
                proof {
                    self.lemma_explained_on(&ready, &Some(*frame));
                    lemma_taken_in_steps(
                        old(self).input.consumed(),
                        parsed.input.consumed(),
                        self.input.consumed(),
                    );
                    lemma_first_segment(head, taken(&old(self).input, &self.input));
                    assert(ready.missing_table(frame, &scan.info) == old(self).missing_table(
                        frame,
                        &scan.info,
                    ));
                }
                let ended = match &decoded {
                    Ok(_) => true,
                    Err(JpegError::EOF) => true,
                    Err(_) => false,
                };
                if keep_coefficients && ended {
                    scan.coefficients = Some(self.copy_coefficients());
                }
                proof {
                    assert(scan_fits(&scan, frame));
                }
                let ghost before = scans@;
                scans.push(scan);
                proof {
                    assert forall|i: int| 0 <= i < scans@.len() implies scan_fits(
                        #[trigger] &scans@[i],
                        frame,
                    ) by {
                        if i < before.len() {
                            assert(scan_fits(&before[i], frame));
                        }
                    }
                }
                match decoded {
                    Ok(_) => {},
                    Err(e) => {
                        return Err(e);
                    },
                }
            },
            None => {
                let ghost before = scans@;
                scans.push(scan);
                proof {
                    assert(self.visited@ + Seq::<BlockPlace>::empty() =~= self.visited@);
                    assert forall|i: int| 0 <= i < scans@.len() implies scan_fits(
                        #[trigger] &scans@[i],
                        frame,
                    ) by {
                        if i < before.len() {
                            assert(scan_fits(&before[i], frame));
                        }
                    }
                }
            },
        }
        if self.n_scan_processed < usize::MAX {
            self.n_scan_processed += 1;
        }
        Ok(())
    }

    /// Where the marker loop stands between two markers: the decoder, the
    /// frame and the scans hold together, and the marks of the loop are
    /// what the markers taken so far make them.
    spec fn between_markers(
        &self,
        frame: &Option<FrameInfo>,
        scans: Seq<Scan>,
        previous_marker: Marker,
    ) -> bool {
        &&& self.stands(frame, scans)
        &&& allowed_up_to(self.markers@, self.markers@.len() as int)
        &&& (frame is Some) == has_frame(self.markers@)
        &&& self.n_scan_processed == scans_counted(self.markers@)
        &&& previous_marker == previous(self.markers@)
    }

    /// Where the decoder stands between two steps: it holds together with
    /// the frame and the scans, and its coefficients are explained by the
    /// blocks that it has gone through.
    spec fn stands(&self, frame: &Option<FrameInfo>, scans: Seq<Scan>) -> bool {
        &&& self.wf()
        &&& self.eoi_end@ is None
        &&& self.ready_for(frame)
        &&& self.explained(frame)
        &&& self.last_done()
        &&& frame matches Some(found) ==> found.wf() && frame_fault(&found) is None && scans_fit(
            scans,
            &found,
        )
        &&& frame is None ==> scans.len() == 0
        &&& self.header_only || self.visited@ == (match frame {
            Some(found) => all_places(found, scans),
            None => Seq::<BlockPlace>::empty(),
        })
    }

    /// `self` is `pre` but for the stream and the log of markers.
    spec fn same_but_stream(&self, pre: &JpegDecoder) -> bool {
        &&& self.blocks == pre.blocks
        &&& self.dc_huffman_tables == pre.dc_huffman_tables
        &&& self.ac_huffman_tables == pre.ac_huffman_tables
        &&& self.quantization_tables == pre.quantization_tables
        &&& self.restart_interval == pre.restart_interval
        &&& self.is_mjpeg == pre.is_mjpeg
        &&& self.n_scan_processed == pre.n_scan_processed
        &&& self.coefficients == pre.coefficients
        &&& self.header_only == pre.header_only
        &&& self.start_byte == pre.start_byte
        &&& self.handoff_recorded == pre.handoff_recorded
        &&& self.blocks_decoded == pre.blocks_decoded
        &&& self.visited == pre.visited
        &&& self.restarts == pre.restarts
        &&& self.eoi_end == pre.eoi_end
    }

    /// `self` has come no further than `pre` with the scans: the same
    /// coefficients, the same count of scans, the same logs of blocks and
    /// restarts, the same place where decoding proper begins.
    spec fn same_progress(&self, pre: &JpegDecoder) -> bool {
        &&& self.blocks == pre.blocks
        &&& self.n_scan_processed == pre.n_scan_processed
        &&& self.coefficients == pre.coefficients
        &&& self.header_only == pre.header_only
        &&& self.start_byte == pre.start_byte
        &&& self.handoff_recorded == pre.handoff_recorded
        &&& self.blocks_decoded == pre.blocks_decoded
        &&& self.visited == pre.visited
        &&& self.restarts == pre.restarts
        &&& self.eoi_end == pre.eoi_end
    }

    /// `self` is `pre` but for the stream, the log of markers and the place
    /// where the image ends.
    spec fn same_progress_but_end(&self, pre: &JpegDecoder) -> bool {
        &&& self.blocks == pre.blocks
        &&& self.n_scan_processed == pre.n_scan_processed
        &&& self.coefficients == pre.coefficients
        &&& self.header_only == pre.header_only
        &&& self.start_byte == pre.start_byte
        &&& self.handoff_recorded == pre.handoff_recorded
        &&& self.blocks_decoded == pre.blocks_decoded
        &&& self.visited == pre.visited
        &&& self.restarts == pre.restarts
        &&& self.same_codes(pre)
        &&& self.quantization_tables == pre.quantization_tables
        &&& self.restart_interval == pre.restart_interval
        &&& self.is_mjpeg == pre.is_mjpeg
    }

    /// `self` has the Huffman tables of `pre`.
    spec fn same_codes(&self, pre: &JpegDecoder) -> bool {
        &&& self.dc_huffman_tables == pre.dc_huffman_tables
        &&& self.ac_huffman_tables == pre.ac_huffman_tables
    }

    /// How the decoder `pre` has become `self` by the step `step` of a
    /// marker: `run` are the bytes of the marker, `segment` the bytes taken
    /// off the stream behind it. A segment of tables, of the restart
    /// interval or of an application sets what it defines and nothing
    /// else; a frame header gives the frame; a scan is added to the scans;
    /// a comment and a trailing restart marker change nothing.
    spec fn step_done(
        &self,
        pre: &JpegDecoder,
        step: Step,
        run: Seq<u8>,
        segment: Seq<u8>,
        frames: (Option<FrameInfo>, Option<FrameInfo>),
        scans: (Seq<Scan>, Seq<Scan>),
        formats: (Option<FormatInfo>, Option<FormatInfo>),
    ) -> bool {
        &&& !(step is Frame) ==> frames.1 == frames.0
        &&& !(step is Scan) ==> scans.1 == scans.0 && formats.1 == formats.0 && self.same_progress(
            pre,
        )
        &&& match step {
            Step::Frame(n) => {
                &&& segment_payload(segment) matches Some(payload) && sof_error(payload, n) is None
                    && (frames.1 matches Some(found) && is_frame_of(&found, payload, n))
                &&& self.same_codes(pre)
                &&& self.quantization_tables == pre.quantization_tables
                &&& self.restart_interval == pre.restart_interval
                &&& self.is_mjpeg == pre.is_mjpeg
            },
            Step::Scan => {
                &&& frames.0 matches Some(found) && scans.1.len() == scans.0.len() + 1
                    && self.scan_taken(
                    pre,
                    pre.input.retained() + run,
                    segment,
                    &found,
                    &scans.1.last(),
                    formats.0 is Some,
                )
                &&& self.quantization_tables == pre.quantization_tables
                &&& self.restart_interval == pre.restart_interval
                &&& self.is_mjpeg == pre.is_mjpeg
            },
            Step::QuantizationTables => {
                &&& segment_payload(segment) matches Some(payload) && dqt_error(payload, 0) is None
                    && quantization_view(self.quantization_tables@) == dqt_installed(
                    quantization_view(pre.quantization_tables@),
                    payload,
                    0,
                )
                &&& self.same_codes(pre)
                &&& self.restart_interval == pre.restart_interval
                &&& self.is_mjpeg == pre.is_mjpeg
            },
            Step::HuffmanTables => {
                let is_baseline = baseline_of(frames.0);
                &&& segment_payload(segment) matches Some(payload) && dht_error(
                    payload,
                    0,
                    is_baseline,
                ) is None && dht_installed(
                    pre.dc_huffman_tables@,
                    self.dc_huffman_tables@,
                    payload,
                    is_baseline,
                    0,
                ) && dht_installed(
                    pre.ac_huffman_tables@,
                    self.ac_huffman_tables@,
                    payload,
                    is_baseline,
                    1,
                )
                &&& self.quantization_tables == pre.quantization_tables
                &&& self.restart_interval == pre.restart_interval
                &&& self.is_mjpeg == pre.is_mjpeg
            },
            Step::RestartInterval => {
                &&& segment_payload(segment) matches Some(payload) && dri_of(payload) == Some(
                    self.restart_interval as int,
                )
                &&& self.same_codes(pre)
                &&& self.quantization_tables == pre.quantization_tables
                &&& self.is_mjpeg == pre.is_mjpeg
            },
            Step::Comment => {
                &&& segment_payload(segment) is Some
                &&& self.same_codes(pre)
                &&& self.quantization_tables == pre.quantization_tables
                &&& self.restart_interval == pre.restart_interval
                &&& self.is_mjpeg == pre.is_mjpeg
            },
            Step::Application(n) => {
                &&& segment_payload(segment) matches Some(payload) && (app_of(payload, n) matches Some(
                    data,
                ) && self.is_mjpeg == (data == AppData::Avi1))
                &&& self.same_codes(pre)
                &&& self.quantization_tables == pre.quantization_tables
                &&& self.restart_interval == pre.restart_interval
            },
            Step::Skip => {
                &&& segment.len() == 0
                &&& self.same_codes(pre)
                &&& self.quantization_tables == pre.quantization_tables
                &&& self.restart_interval == pre.restart_interval
                &&& self.is_mjpeg == pre.is_mjpeg
            },
            Step::End => false,
        }
    }

    /// How the step `step` of a marker has failed with `e`: `run` are the
    /// bytes of the marker, `segment` the bytes taken off the stream behind
    /// it. The segment broke off or has a fault, and `e` names it; or the
    /// frame that it describes is one that the decoder does not decode; or
    /// the scan failed.
    spec fn step_failed(
        &self,
        pre: &JpegDecoder,
        step: Step,
        e: JpegError,
        run: Seq<u8>,
        segment: Seq<u8>,
        frame: Option<FrameInfo>,
        scans: (Seq<Scan>, Seq<Scan>),
        with_data: bool,
    ) -> bool {
        let payload = segment_payload(segment);
        match step {
            Step::Frame(n) => {
                ||| is_parse_error(
                    e,
                    segment,
                    match payload {
                        Some(payload) => sof_error(payload, n),
                        None => None,
                    },
                )
                ||| (payload matches Some(payload) && sof_error(payload, n) is None && exists|
                    found: FrameInfo,
                |
                    #[trigger] is_frame_of(&found, payload, n) && (frame_fault(&found) matches Some(
                        feature,
                    ) && e.is_unsupported(feature)))
            },
            Step::Scan => frame matches Some(found) && self.scan_failed(
                pre,
                pre.input.retained() + run,
                e,
                segment,
                &found,
                scans.0,
                scans.1,
                with_data,
            ),
            Step::QuantizationTables => is_parse_error(
                e,
                segment,
                match payload {
                    Some(payload) => dqt_error(payload, 0),
                    None => None,
                },
            ),
            Step::HuffmanTables => is_parse_error(
                e,
                segment,
                match payload {
                    Some(payload) => dht_error(payload, 0, baseline_of(frame)),
                    None => None,
                },
            ),
            Step::RestartInterval => is_parse_error(
                e,
                segment,
                if payload matches Some(payload) && dri_of(payload) is None {
                    Some("DRI with invalid length"@)
                } else {
                    None
                },
            ),
            Step::Comment => is_segment_error(e, segment),
            Step::Application(n) => is_parse_error(
                e,
                segment,
                if payload matches Some(payload) && app_of(payload, n) is None {
                    Some("invalid color transform in adobe app segment"@)
                } else {
                    None
                },
            ),
            Step::Skip => false,
            Step::End => false,
        }
    }

    /// Whether the decoder `pre` has become `self` by taking the marker
    /// `marker` off the stream, `raw` in all, with the outcome `failure`:
    /// the head of `raw` is the marker, as the marker loop takes one, and
    /// what follows it in `raw` is what the step of the marker took. With
    /// no failure the step is done; else the marker is one that is not
    /// allowed at its place, and nothing follows it in `raw`, or the step
    /// has failed.
    spec fn marker_taken(
        &self,
        pre: &JpegDecoder,
        marker: Marker,
        how: Verdict,
        failure: Option<JpegError>,
        raw: Seq<u8>,
        frames: (Option<FrameInfo>, Option<FrameInfo>),
        scans: (Seq<Scan>, Seq<Scan>),
        formats: (Option<FormatInfo>, Option<FormatInfo>),
    ) -> bool {
        exists|k: int|
            {
                &&& 0 <= k <= raw.len()
                &&& is_marker_run(#[trigger] raw.take(k), marker)
                &&& match how {
                    Verdict::Do(step) => match failure {
                        None => self.step_done(
                            pre,
                            step,
                            raw.take(k),
                            raw.skip(k),
                            frames,
                            scans,
                            formats,
                        ),
                        Some(e) => self.step_failed(
                            pre,
                            step,
                            e,
                            raw.take(k),
                            raw.skip(k),
                            frames.0,
                            scans,
                            formats.0 is Some,
                        ),
                    },
                    _ => failure is Some && k == raw.len(),
                }
            }
    }

    /// Whether `copy` is a copy of the coefficients as they stand.
    pub open spec fn holds_copy(&self, copy: Option<Vec<Vec<i16>>>) -> bool {
        copy matches Some(held) && held@.len() == self.stored().len() && forall|i: int|
            0 <= i < held@.len() ==> (#[trigger] held@[i])@ == self.stored()[i]@
    }

    /// What holds of the scan `scan` that the decoder `pre` has added on its
    /// way to `self`, with the answer `failure`: a decoder that parses
    /// headers only, or that has garbage ahead of the entropy-coded data,
    /// keeps no coefficients with the scan. A scan that was taken whole did
    /// not break off. Where the stream ended within the scan, the blocks
    /// decoded are the first of the scan, and the scan broke off at the
    /// next, if it broke off within a block.
    spec fn scan_added(
        &self,
        pre: &JpegDecoder,
        failure: Option<JpegError>,
        frame: Option<FrameInfo>,
        scan: &Scan,
    ) -> bool {
        &&& pre.start_byte > 0 || pre.header_only ==> scan.coefficients is None
        &&& pre.start_byte == 0 && !pre.header_only && (match failure {
            None => true,
            Some(e) => e is EOF,
        }) ==> self.holds_copy(scan.coefficients)
        &&& pre.header_only ==> self.visited == pre.visited
        &&& failure is None ==> scan.truncation is None
        &&& failure matches Some(e) ==> (e is EOF ==> self.broke_at_last(pre, scan.truncation))
        &&& failure matches Some(e) ==> (e is EOF ==> (frame matches Some(found) && broke_off(
            pre.visited@,
            self.visited@,
            scan.truncation,
            scan_places(&found, &scan.info),
        )))
    }

    /// What `take_marker` owes as its answer `r` when it finds the marker
    /// `marker` at hand, and the bytes `rest` behind it: where the marker is
    /// not allowed at its place, it fails. The EOI marker ends the image,
    /// and a trailing restart marker is passed over. Every other marker has
    /// a segment; where that is at hand too, the step fails if the segment
    /// has a fault, and else it is done and the marker is the answer, but
    /// that a frame must be one that the decoder decodes, and that of a scan
    /// with data nothing is owed.
    spec fn owed_at_hand(
        how: Verdict,
        r: JpegResult<Option<Marker>>,
        marker: Marker,
        rest: Seq<u8>,
        frame: Option<FrameInfo>,
        with_data: bool,
    ) -> bool {
        let done = r matches Ok(Some(found)) && found == marker;
        match how {
            Verdict::Do(Step::End) => r matches Ok(None),
            Verdict::Do(step) => Self::step_owed(step, done, r is Err, rest, frame, with_data),
            _ => r matches Err(e) && gives(Err::<Step, JpegError>(e), how),
        }
    }

    /// What the marker loop owes as its answer `ended` when it finds the
    /// first marker behind SOI at hand, and `how` is the verdict on it: it
    /// ends without a frame at the EOI marker, and fails at a marker that
    /// is not allowed there.
    spec fn first_owed(how: Verdict, ended: JpegResult<()>, frame: Option<FrameInfo>) -> bool {
        match how {
            Verdict::Do(Step::End) => ended is Ok && frame is None,
            Verdict::Do(_) => true,
            _ => ended matches Err(e) && gives(Err::<Step, JpegError>(e), how),
        }
    }

    /// Whether the verdict lets the marker loop go on.
    spec fn goes_on(how: Verdict) -> bool {
        how matches Verdict::Do(step) && !(step is End)
    }

    /// What a step owes when the bytes `rest` are at hand for it: a
    /// trailing restart marker is passed over. Every other step has a
    /// segment; where that is at hand, the step fails if the segment has a
    /// fault, and else it is done, but that a frame must be one that the
    /// decoder decodes, and that of a scan with data nothing is owed.
    spec fn step_owed(
        step: Step,
        done: bool,
        failed: bool,
        rest: Seq<u8>,
        frame: Option<FrameInfo>,
        with_data: bool,
    ) -> bool {
        let payload = first_segment(rest).skip(2);
        match step {
            Step::Skip => done,
            _ => segment_at_hand(rest) ==> match step {
                Step::Frame(n) => {
                    &&& sof_error(payload, n) is Some ==> failed
                    &&& sof_error(payload, n) is None && (forall|found: FrameInfo| #[trigger]
                        is_frame_of(&found, payload, n) ==> frame_fault(&found) is None) ==> done
                },
                Step::Scan => frame matches Some(found) && {
                    &&& sos_error(payload, &found) is Some ==> failed
                    &&& !with_data && sos_error(payload, &found) is None ==> done
                },
                Step::QuantizationTables => done == (dqt_error(payload, 0) is None),
                Step::HuffmanTables => done == (dht_error(payload, 0, baseline_of(frame)) is None),
                Step::RestartInterval => done == (dri_of(payload) is Some),
                Step::Comment => done,
                Step::Application(n) => done == (app_of(payload, n) is Some),
                _ => true,
            },
        }
    }

    /// Whether the reader `post` is what a reader that held the bytes
    /// `pending` and had processed `processed` bytes becomes by taking the
    /// segment that it had at hand, if it had one and room for it.
    spec fn segment_served(pending: Seq<u8>, processed: nat, post: &InputStream) -> bool {
        segment_at_hand(pending) && processed + pending.len() <= usize::MAX ==> post.pending()
            == pending.skip(first_segment(pending).len() as int) && post.processed()
            + post.pending().len() == processed + pending.len()
    }

    /// Where a step that is done leaves the reader and the frame when it
    /// found the bytes `pending` at hand: a trailing restart marker takes
    /// none of them; every other step takes its segment, but that of a
    /// scan with data nothing is said; a frame header gives the frame that
    /// it describes.
    spec fn stepped(
        step: Step,
        pending: Seq<u8>,
        processed: nat,
        post: &InputStream,
        frame: Option<FrameInfo>,
        with_data: bool,
    ) -> bool {
        match step {
            Step::Skip => post.pending() == pending && post.processed() == processed,
            Step::Scan => !with_data ==> Self::segment_served(pending, processed, post),
            Step::End => true,
            Step::Frame(n) => Self::segment_served(pending, processed, post) && (segment_at_hand(
                pending,
            ) ==> (frame matches Some(found) && is_frame_of(
                &found,
                first_segment(pending).skip(2),
                n,
            ))),
            _ => Self::segment_served(pending, processed, post),
        }
    }

    /// Where the step that the verdict `how` asks for leaves the reader and
    /// the frame: see `stepped`.
    spec fn stepped_by(
        how: Verdict,
        pending: Seq<u8>,
        processed: nat,
        post: &InputStream,
        frame: Option<FrameInfo>,
        with_data: bool,
    ) -> bool {
        match how {
            Verdict::Do(step) => Self::stepped(step, pending, processed, post, frame, with_data),
            _ => true,
        }
    }

    /// Does the step of a marker: takes the segment of the marker off the
    /// stream and sets what it defines, or takes the scan. `before` is the
    /// decoder as it was ahead of the marker, `run` the bytes of the
    /// marker.
    #[verifier::spinoff_prover]
    #[verifier::rlimit(60)]
    fn take_step(
        &mut self,
        step: Step,
        frame: &mut Option<FrameInfo>,
        scans: &mut Vec<Scan>,
        format: &mut Option<FormatInfo>,
        Ghost(before): Ghost<JpegDecoder>,
        Ghost(run): Ghost<Seq<u8>>,
    ) -> (r: JpegResult<()>)
        requires
            old(self).stands(&*old(frame), old(scans)@),
            (*old(format) is None) == old(self).header_only,
            !(step is End),
            step is Scan ==> *old(frame) is Some,
            step is Frame ==> *old(frame) is None,
            step matches Step::Frame(n) ==> Marker::SOF(n).wf(),
            old(self).same_but_stream(&before),
            old(self).input.retained() == before.input.retained() + run,
        ensures
            final(self).wf(),
            final(self).markers == old(self).markers,
            final(self).eoi_end@ is None,
            final(self).header_only == old(self).header_only,
            final(self).start_byte == old(self).start_byte || final(self).start_byte == 0,
            *final(frame) matches Some(found) ==> found.wf() && frame_fault(&found) is None
                && scans_fit(final(scans)@, &found),
            *final(frame) is None ==> final(scans)@.len() == 0,
            (*final(format) is Some) == (*old(format) is Some),
            old(self).input.consumed().is_prefix_of(final(self).input.consumed()),
            final(self).input.counted_from() == old(self).input.counted_from(),
            old(scans)@.is_prefix_of(final(scans)@),
            final(scans)@.len() <= old(scans)@.len() + 1,
            final(scans)@.len() == old(scans)@.len() ==> final(self).start_byte == old(self).start_byte && final(self).visited@ == old(self).visited@ && final(self).stored()
                == old(self).stored() && final(self).blocks() == old(self).blocks(),
            final(scans)@.len() > old(scans)@.len() ==> final(self).scan_added(
                old(self),
                match r {
                    Ok(_) => None,
                    Err(e) => Some(e),
                },
                *old(frame),
                &final(scans)@.last(),
            ),
            *old(frame) is Some ==> *final(frame) == *old(frame),
            ends_where_run_out(r, &final(self).input),
            final(self).explained(&*final(frame)),
            old(self).blocks().is_prefix_of(final(self).blocks()),
            *final(frame) is Some ==> *old(frame) is Some || step is Frame,
            r is Ok ==> Self::stepped(
                step,
                old(self).input.pending(),
                old(self).input.processed(),
                &final(self).input,
                *final(frame),
                *old(format) is Some,
            ),
            Self::step_owed(
                step,
                r is Ok,
                r is Err,
                old(self).input.pending(),
                *old(frame),
                *old(format) is Some,
            ),
            match r {
                Ok(_) => {
                    &&& final(self).stands(&*final(frame), final(scans)@)
                    &&& (*final(frame) is Some) == (*old(frame) is Some || step is Frame)
                    &&& final(scans)@.len() == old(scans)@.len() + if step is Scan {
                        1int
                    } else {
                        0int
                    }
                    &&& final(self).n_scan_processed == if step is Scan && old(self).n_scan_processed < usize::MAX {
                        (old(self).n_scan_processed + 1) as usize
                    } else {
                        old(self).n_scan_processed
                    }
                    &&& *final(format) matches Some(after) ==> *old(format) matches Some(held)
                        && after.grb == held.grb
                    &&& final(self).step_done(
                        &before,
                        step,
                        run,
                        taken(&old(self).input, &final(self).input),
                        (*old(frame), *final(frame)),
                        (old(scans)@, final(scans)@),
                        (*old(format), *final(format)),
                    )
                },
                Err(e) => final(self).step_failed(
                    &before,
                    step,
                    e,
                    run,
                    taken(&old(self).input, &final(self).input),
                    *old(frame),
                    (old(scans)@, final(scans)@),
                    *old(format) is Some,
                ),
            },
    {
        let ghost entered = *self;
        let ghost entry_frame = *frame;
        proof {
            assert(taken(&entered.input, &self.input) =~= Seq::<u8>::empty());
        }
        let done: JpegResult<()> = match step {
            Step::Frame(n) => {
                match parse_sof(&mut self.input, n) {
                    Ok(found) => {
                        match check_frame(&found) {
                            Ok(_) => {
                                *frame = Some(found);
                                Ok(())
                            },
                            Err(e) => {
                                proof {
                                    let payload = segment_payload(
                                        taken(&entered.input, &self.input),
                                    )->0;
                                    assert(is_frame_of(&found, payload, n));
                                }
                                Err(e)
                            },
                        }
                    },
                    Err(e) => Err(e),
                }
            },
            Step::Scan => {
                match frame {
                    Some(found) => self.take_scan(found, scans, format),
                    None => Ok(()),
                }
            },
            Step::QuantizationTables => parse_dqt(&mut self.input, &mut self.quantization_tables),
            Step::HuffmanTables => {
                let is_baseline = match frame {
                    Some(found) => Some(found.is_baseline()),
                    None => None,
                };
                parse_dht(
                    &mut self.input,
                    is_baseline,
                    &mut self.dc_huffman_tables,
                    &mut self.ac_huffman_tables,
                )
            },
            Step::RestartInterval => {
                match parse_dri(&mut self.input) {
                    Ok(interval) => {
                        self.restart_interval = interval;
                        Ok(())
                    },
                    Err(e) => Err(e),
                }
            },
            Step::Comment => {
                match parse_com(&mut self.input) {
                    Ok(_) => Ok(()),
                    Err(e) => Err(e),
                }
            },
            Step::Application(n) => {
                match parse_app(&mut self.input, n) {
                    Ok(is_mjpeg) => {
                        self.is_mjpeg = is_mjpeg;
                        Ok(())
                    },
                    Err(e) => Err(e),
                }
            },
            Step::Skip => {
                // Some encoders put one more restart marker behind the
                // data of a scan.
                Ok(())
            },
            Step::End => Ok(()),
        };
        proof {
            if !(step is Scan) {
                self.lemma_explained_kept(&entered, &entry_frame, &*frame);
            }
            self.input.lemma_counted_from_in_range();
            entered.input.lemma_counted_from_in_range();
        }
        done
    }

    /// Takes one marker off the stream and does what the marker asks for.
    /// It gives the marker, or `None` for the EOI marker. It fails where
    /// no marker can be taken, where the marker is not allowed at its
    /// place, and where the step of the marker fails. Where the marker
    /// and its segment are at hand, nothing else fails it.
    #[verifier::spinoff_prover]
    #[verifier::rlimit(60)]
    fn take_marker(
        &mut self,
        frame: &mut Option<FrameInfo>,
        scans: &mut Vec<Scan>,
        format: &mut Option<FormatInfo>,
        previous_marker: Marker,
    ) -> (r: JpegResult<Option<Marker>>)
        requires
            old(self).between_markers(&*old(frame), old(scans)@, previous_marker),
            (*old(format) is None) == old(self).header_only,
        ensures
            final(self).wf(),
            final(self).header_only == old(self).header_only,
            final(self).start_byte == old(self).start_byte || final(self).start_byte == 0,
            *final(frame) matches Some(found) ==> found.wf() && frame_fault(&found) is None
                && scans_fit(final(scans)@, &found),
            *final(frame) is None ==> final(scans)@.len() == 0,
            *final(frame) is Some ==> has_frame(final(self).markers@),
            (*final(format) is Some) == (*old(format) is Some),
            old(self).input.consumed().is_prefix_of(final(self).input.consumed()),
            final(self).input.counted_from() == old(self).input.counted_from(),
            old(scans)@.is_prefix_of(final(scans)@),
            final(scans)@.len() <= old(scans)@.len() + 1,
            final(scans)@.len() == old(scans)@.len() ==> final(self).start_byte == old(self).start_byte && final(self).visited@ == old(self).visited@ && final(self).stored() == old(self).stored(),
            final(scans)@.len() > old(scans)@.len() ==> final(self).scan_added(
                old(self),
                match r {
                    Ok(_) => None,
                    Err(e) => Some(e),
                },
                *old(frame),
                &final(scans)@.last(),
            ),
            *old(frame) is Some ==> *final(frame) == *old(frame),
            ends_where_run_out(r, &final(self).input),
            final(self).explained(&*final(frame)),
            final(scans)@.len() == old(scans)@.len() ==> final(self).blocks() == old(self).blocks(),
            old(self).blocks().is_prefix_of(final(self).blocks()),
            r matches Ok(Some(marker)) ==> final(scans)@.len() == old(scans)@.len() + if marker
                == Marker::SOS {
                1int
            } else {
                0int
            },
            forall|k: int, marker: Marker| #[trigger]
                marker_at_hand(old(self).input.pending(), k, marker) && old(self).input.processed()
                    + k <= usize::MAX ==> Self::owed_at_hand(
                    verdict(
                        marker,
                        previous_marker,
                        *old(frame) is Some,
                        old(self).n_scan_processed,
                    ),
                    r,
                    marker,
                    old(self).input.pending().skip(k),
                    *old(frame),
                    *old(format) is Some,
                ),
            forall|k: int, marker: Marker| #[trigger]
                marker_at_hand(old(self).input.pending(), k, marker) && old(self).input.processed()
                    + old(self).input.pending().len() <= usize::MAX ==> (r matches Ok(Some(_))
                    ==> Self::stepped_by(
                    verdict(
                        marker,
                        previous_marker,
                        *old(frame) is Some,
                        old(self).n_scan_processed,
                    ),
                    old(self).input.pending().skip(k),
                    (old(self).input.processed() + k) as nat,
                    &final(self).input,
                    *final(frame),
                    *old(format) is Some,
                )),
            r matches Ok(Some(marker)) ==> final(self).n_scan_processed == (if marker
                == Marker::SOS {
                one_more(old(self).n_scan_processed)
            } else {
                old(self).n_scan_processed
            }) && (*final(frame) is Some ==> *old(frame) is Some || marker is SOF),
            match r {
                Ok(Some(marker)) => {
                    &&& final(self).between_markers(&*final(frame), final(scans)@, marker)
                    &&& final(self).input.processed() > old(self).input.processed()
                    &&& *final(format) matches Some(after) ==> *old(format) matches Some(before)
                        && after.grb == before.grb
                    &&& final(self).markers@ == old(self).markers@.push(marker)
                    &&& final(self).marker_taken(
                        old(self),
                        marker,
                        verdict(
                            marker,
                            previous_marker,
                            *old(frame) is Some,
                            old(self).n_scan_processed,
                        ),
                        None,
                        taken(&old(self).input, &final(self).input),
                        (*old(frame), *final(frame)),
                        (old(scans)@, final(scans)@),
                        (*old(format), *final(format)),
                    )
                },
                Ok(None) => {
                    &&& is_marker_run(taken(&old(self).input, &final(self).input), Marker::EOI)
                    &&& final(self).markers@ == old(self).markers@.push(Marker::EOI)
                    &&& final(self).same_progress_but_end(old(self))
                    &&& final(self).eoi_end@ == Some(final(self).input.consumed().len())
                    &&& ends_with_eoi(final(self).input.consumed())
                    &&& final(self).input.retained() == Seq::<u8>::empty()
                    &&& *final(format) == *old(format)
                    &&& *final(frame) == *old(frame)
                    &&& final(scans)@ == old(scans)@
                    &&& final(self).visited@ == old(self).visited@
                    &&& final(self).markers@.len() > 0
                    &&& final(self).markers@.last() == Marker::EOI
                    &&& allowed_up_to(final(self).markers@, final(self).markers@.len() as int)
                },
                Err(e) => {
                    let markers = final(self).markers@;
                    &&& final(self).eoi_end@ is None
                    &&& allowed_up_to(markers, markers.len() - 1)
                    &&& markers.len() > 0 ==> verdict_at(markers, markers.len() - 1) is Do || gives(
                        Err::<Step, JpegError>(e),
                        verdict_at(markers, markers.len() - 1),
                    )
                    &&& if markers.len() == old(self).markers@.len() {
                        &&& final(self).same_but_input(old(self))
                        &&& *final(frame) == *old(frame)
                        &&& final(scans)@ == old(scans)@
                        &&& *final(format) == *old(format)
                        &&& {
                            ||| e is EOF && final(self).input.pending().len() == 0
                            ||| e.is_malformatted("stream is too long"@) && final(self).input.processed() == usize::MAX
                            ||| e.is_malformatted(
                                "0xFF00 found where marker was expected (read_marker)"@,
                            )
                        }
                    } else {
                        &&& markers == old(self).markers@.push(markers.last())
                        &&& gives(
                            Err::<Step, JpegError>(e),
                            verdict(
                                markers.last(),
                                previous_marker,
                                *old(frame) is Some,
                                old(self).n_scan_processed,
                            ),
                        ) || verdict(
                            markers.last(),
                            previous_marker,
                            *old(frame) is Some,
                            old(self).n_scan_processed,
                        ) is Do
                        &&& final(self).marker_taken(
                            old(self),
                            markers.last(),
                            verdict(
                                markers.last(),
                                previous_marker,
                                *old(frame) is Some,
                                old(self).n_scan_processed,
                            ),
                            Some(e),
                            taken(&old(self).input, &final(self).input),
                            (*old(frame), *final(frame)),
                            (old(scans)@, final(scans)@),
                            (*old(format), *final(format)),
                        )
                    }
                },
            },
    {
        let ghost before = *self;
        let ghost entry_frame = *frame;
        proof {
            self.input.lemma_counted_from_in_range();
        }
        let marker = match self.read_marker() {
            Ok(marker) => marker,
            Err(e) => {
                proof {
                    self.lemma_explained_kept(&before, &entry_frame, &entry_frame);
                }
                return Err(e);
            },
        };
        let ghost raw = taken(&before.input, &self.input);
        proof {
            Marker::law_codes(raw.last());
            lemma_allowed_push(self.markers@, marker);
            self.input.lemma_counted_from_in_range();
        }
        self.markers = Ghost(self.markers@.push(marker));
        let ghost marked = *self;
        proof {
            marked.lemma_explained_kept(&before, &entry_frame, &entry_frame);
        }
        let ghost how = verdict(marker, previous_marker, frame.is_some(), self.n_scan_processed);
        let step = match classify(marker, previous_marker, frame.is_some(), self.n_scan_processed) {
            Ok(step) => step,
            Err(e) => {
                proof {
                    assert(raw.take(raw.len() as int) =~= raw);
                }
                return Err(e);
            },
        };
        if let Step::End = step {
            // What was retained up to here is no garbage behind the
            // image.
            self.input.clear_retained_data();
            self.eoi_end = Ghost(Some(self.input.consumed().len()));
            proof {
                self.lemma_explained_kept(&marked, &entry_frame, &entry_frame);
                assert(marker == Marker::EOI);
                assert(raw.last() == 0xD9);
                assert(raw[raw.len() - 2] == 0xFF);
                let all = self.input.consumed();
                assert(all.skip(before.input.consumed().len() as int) == raw);
                assert(all[all.len() - 1] == raw[raw.len() - 1]);
                assert(all[all.len() - 2] == raw[raw.len() - 2]);
            }
            return Ok(None);
        }
        let done = self.take_step(step, frame, scans, format, Ghost(before), Ghost(raw));
        proof {
            self.input.lemma_counted_from_in_range();
            marked.input.lemma_counted_from_in_range();
            let all = taken(&before.input, &self.input);
            lemma_taken_in_steps(
                before.input.consumed(),
                marked.input.consumed(),
                self.input.consumed(),
            );
            assert(all.take(raw.len() as int) =~= raw);
            assert(all.skip(raw.len() as int) =~= taken(&marked.input, &self.input));
        }
        match done {
            Ok(_) => Ok(Some(marker)),
            Err(e) => Err(e),
        }
    }

    /// What holds of the scans of a decoder that began with
    /// `start_byte` bytes of garbage ahead of the entropy-coded data and
    /// whose marker loop has ended with `failure`. No scan but the last
    /// broke off, and the last only where the loop failed. The first scan
    /// holds no coefficients if there was garbage, and none does in a
    /// decoder that parses headers only, which decodes no block. A decoder
    /// without garbage ahead of the data keeps the coefficients with every
    /// scan, and the last scan holds them as they stand. Where the stream
    /// ended within a block, the last scan is marked at that block. Where the
    /// stream ended, the blocks decoded are those of the scans before the
    /// last and the first of the last, up to the place where it broke off.
    pub open spec fn scans_settled(
        &self,
        start_byte: usize,
        scans: Seq<Scan>,
        frame: Option<FrameInfo>,
        failure: Option<JpegError>,
    ) -> bool {
        &&& forall|i: int| 0 <= i < scans.len() - 1 ==> (#[trigger] scans[i]).truncation is None
        &&& failure is None && scans.len() > 0 ==> scans.last().truncation is None
        &&& failure is None ==> scans.len() == scans_among(self.markers())
        &&& (start_byte > 0 || self.header_only()) && scans.len() > 0 ==> scans[0].coefficients
            is None
        &&& self.header_only() ==> self.visited().len() == 0 && forall|i: int|
            0 <= i < scans.len() ==> (#[trigger] scans[i]).coefficients is None
        &&& start_byte == 0 && !self.header_only() && (match failure {
            None => true,
            Some(e) => e is EOF,
        }) ==> (forall|i: int| 0 <= i < scans.len() ==> (#[trigger] scans[i]).coefficients is Some)
            && (scans.len() > 0 ==> self.holds_copy(scans.last().coefficients))
        &&& failure matches Some(e) ==> (e is EOF && scans.len() > 0 ==> (self.blocks().len() > 0
            && !self.blocks().last().done ==> (scans.last().truncation matches Some(at)
            && place_of(at) == self.blocks().last().place)))
        &&& failure matches Some(e) ==> (e is EOF && !self.header_only() && scans.len() > 0 ==> (
        frame matches Some(found) && broke_off(
            all_places(&found, scans.drop_last()),
            self.visited(),
            scans.last().truncation,
            scan_places(&found, &scans.last().info),
        )))
    }

    /// The marker loop: takes the SOI marker off the stream, and then marker
    /// after marker with its segment, until the EOI marker. Every marker
    /// that it takes is one that `verdict` allows at its place.
    #[verifier::spinoff_prover]
    #[verifier::rlimit(60)]
    fn decode_internal(
        &mut self,
        frame: &mut Option<FrameInfo>,
        scans: &mut Vec<Scan>,
        format: &mut Option<FormatInfo>,
    ) -> (r: JpegResult<()>)
        requires
            old(self).fresh(),
            *old(frame) is None,
            old(scans)@.len() == 0,
            (*old(format) is None) == old(self).header_only,
        ensures
            final(self).wf(),
            *final(frame) matches Some(found) ==> scans_fit(final(scans)@, &found),
            *final(frame) is None ==> final(scans)@.len() == 0,
            *final(frame) is Some ==> has_frame(final(self).markers@),
            starts_with_soi(taken(&old(self).input, &final(self).input)) || (r matches Err(e) && (
            e is EOF || e.is_malformatted("stream is too long"@) || e.is_malformatted(
                "first two bytes is not a SOI marker"@,
            ))),
            final(self).scans_settled(
                old(self).start_byte,
                final(scans)@,
                *final(frame),
                match r {
                    Ok(_) => None,
                    Err(e) => Some(e),
                },
            ),
            ends_where_run_out(r, &final(self).input),
            final(self).explained(&*final(frame)),
            old(self).header_only && image_at_hand(
                old(self).input.pending(),
                old(self).input.processed(),
            ) ==> r is Ok && *final(frame) is Some,
            forall|k: int, marker: Marker| #[trigger]
                marker_at_hand(old(self).input.pending().skip(2), k, marker) && starts_with_soi(
                    old(self).input.pending(),
                ) && old(self).input.processed() + 2 + k <= usize::MAX ==> Self::first_owed(
                    verdict(marker, Marker::SOI, false, 0),
                    r,
                    *final(frame),
                ),
            old(self).input.pending().len() >= 2 && old(self).input.processed() + 2 <= usize::MAX
                && !starts_with_soi(old(self).input.pending()) ==> (r matches Err(e)
                && e.is_malformatted("first two bytes is not a SOI marker"@)),
            r matches Err(e) ==> (final(self).markers@.len() == 0 ==> {
                let raw = taken(&old(self).input, &final(self).input);
                ||| e is EOF && final(self).input.pending().len() == 0
                ||| e.is_malformatted("stream is too long"@) && final(self).input.processed()
                    == usize::MAX
                ||| e.is_malformatted("first two bytes is not a SOI marker"@) && raw.len() == 2
                    && !starts_with_soi(raw)
                ||| e.is_malformatted("0xFF00 found where marker was expected (read_marker)"@)
                    && starts_with_soi(raw)
            }),
            final(self).markers@.len() > 0 ==> starts_with_soi(
                taken(&old(self).input, &final(self).input),
            ),
            final(self).header_only == old(self).header_only,
            final(self).start_byte == old(self).start_byte || final(self).start_byte == 0,
            *final(frame) matches Some(found) ==> found.wf() && frame_fault(&found) is None,
            (*final(format) is Some) == (*old(format) is Some),
            old(self).input.consumed().is_prefix_of(final(self).input.consumed()),
            match r {
                Ok(_) => {
                    &&& final(self).eoi_end@ == Some(final(self).input.consumed().len())
                    &&& ends_with_eoi(final(self).input.consumed())
                    &&& final(self).input.retained() == Seq::<u8>::empty()
                    &&& *final(format) matches Some(after) ==> *old(format) matches Some(before)
                        && after.grb == before.grb
                    &&& final(self).markers@.len() > 0
                    &&& final(self).markers@.last() == Marker::EOI
                    &&& allowed_up_to(final(self).markers@, final(self).markers@.len() as int)
                    &&& *final(frame) matches Some(found) ==> final(self).header_only || final(self).visited@ == all_places(&found, final(scans)@)
                },
                Err(e) => {
                    let markers = final(self).markers@;
                    &&& final(self).eoi_end@ is None
                    &&& allowed_up_to(markers, markers.len() - 1)
                    &&& markers.len() > 0 ==> verdict_at(markers, markers.len() - 1) is Do || gives(
                        Err::<Step, JpegError>(e),
                        verdict_at(markers, markers.len() - 1),
                    )
                },
            },
    {
        proof {
            assert(taken(&old(self).input, &self.input) =~= Seq::<u8>::empty());
            assert(self.visited() =~= done_places(self.blocks()));
            assert(self.explained(&*frame));
        }
        let first = match self.next_byte() {
            Ok(first) => first,
            Err(e) => {
                proof {
                    self.lemma_explained_kept(old(self), &*frame, &*frame);
                }
                return Err(e);
            },
        };
        proof {
            assert(taken(&old(self).input, &self.input) =~= seq![first]);
        }
        let second = match self.next_byte() {
            Ok(second) => second,
            Err(e) => {
                proof {
                    self.lemma_explained_kept(old(self), &*frame, &*frame);
                }
                return Err(e);
            },
        };
        proof {
            self.lemma_explained_kept(old(self), &*frame, &*frame);
        }
        proof {
            assert(taken(&old(self).input, &self.input) =~= seq![first, second]);
        }
        let soi = match Marker::from_u8(second) {
            Some(Marker::SOI) => true,
            _ => false,
        };
        if first != 0xFF || !soi {
            return Err(JpegError::malformatted("first two bytes is not a SOI marker"));
        }
        let ghost opened = self.input.consumed();
        let mut previous_marker = Marker::SOI;
        proof {
            assert(self.visited@ =~= Seq::<BlockPlace>::empty());
            let at_hand = old(self).input.pending();
            if old(self).header_only && image_at_hand(at_hand, old(self).input.processed()) {
                assert(at_hand.skip(1).skip(1) =~= at_hand.skip(2));
                assert(self.input.pending() == at_hand.skip(2));
                assert(self.input.processed() == old(self).input.processed() + 2);
                assert(*frame is None);
                assert(self.n_scan_processed == 0);
            }
        }
        loop
            invariant
                self.between_markers(&*frame, scans@, previous_marker),
                self.header_only == old(self).header_only,
                (*format is None) == self.header_only,
                self.start_byte == old(self).start_byte || self.start_byte == 0,
                (*format is Some) == (*old(format) is Some),
                *format matches Some(after) ==> *old(format) matches Some(before) && after.grb
                    == before.grb,
                opened == old(self).input.consumed() + seq![0xFFu8, 0xD8u8],
                opened.is_prefix_of(self.input.consumed()),
                old(self).input.pending().len() >= 2 && old(self).input.processed() + 2
                    <= usize::MAX ==> starts_with_soi(old(self).input.pending()),
                self.scans_settled(old(self).start_byte, scans@, *frame, None),
                scans@.len() == 0 ==> self.start_byte == old(self).start_byte,
                old(self).header_only && image_at_hand(
                    old(self).input.pending(),
                    old(self).input.processed(),
                ) ==> headers_fine(
                    self.input.pending(),
                    previous_marker,
                    *frame,
                    self.n_scan_processed,
                ) && self.input.processed() + self.input.pending().len() <= usize::MAX,
                self.markers@.len() == 0 ==> previous_marker == Marker::SOI && *frame is None
                    && self.n_scan_processed == 0 && (starts_with_soi(old(self).input.pending())
                    && old(self).input.processed() + 2 <= usize::MAX ==> self.input.pending()
                    == old(self).input.pending().skip(2) && self.input.processed() == old(self).input.processed() + 2),
                self.markers@.len() > 0 ==> forall|k: int, marker: Marker| #[trigger]
                    marker_at_hand(old(self).input.pending().skip(2), k, marker)
                        && starts_with_soi(old(self).input.pending()) && old(self).input.processed() + 2 + k <= usize::MAX ==> Self::goes_on(
                        verdict(marker, Marker::SOI, false, 0),
                    ),
                old(self).start_byte == 0 ==> self.start_byte == 0,
                self.input.counted_from() == old(self).input.counted_from(),
            decreases usize::MAX - self.input.processed(),
        {
            proof {
                self.input.lemma_counted_from_in_range();
            }
            let ghost before = self.input.consumed();
            let ghost before_scans = scans@;
            let ghost before_visited = self.visited@;
            let ghost before_frame = *frame;
            let ghost before_markers = self.markers@;
            let ghost before_blocks = self.blocks();
            let ghost at_hand = self.input.pending();
            let taken_marker = self.take_marker(frame, scans, format, previous_marker);
            proof {
                if old(self).header_only && image_at_hand(
                    old(self).input.pending(),
                    old(self).input.processed(),
                ) {
                    let k = choose|k: int| code_at_hand(at_hand, k);
                    assert(code_at_hand(at_hand, k));
                    assert(at_hand.take(k).last() == at_hand[k - 1]);
                    let marker = Marker::of(at_hand[k - 1])->0;
                    assert(marker_at_hand(at_hand, k, marker));
                }
                if self.blocks().len() == before_blocks.len() {
                    assert(self.blocks() =~= before_blocks);
                }
                if taken_marker is Ok {
                    assert(self.markers@.drop_last() =~= before_markers);
                }
                self.input.lemma_counted_from_in_range();
                lemma_still_opens(old(self).input.consumed(), opened, before, self.input.consumed());
                if scans@.len() == before_scans.len() {
                    assert(scans@ =~= before_scans);
                    if scans@.len() > 0 && !self.header_only {
                        let found = before_frame->0;
                        assert(before_visited == all_places(&found, scans@));
                        assert(before_visited.skip(
                            all_places(&found, scans@.drop_last()).len() as int,
                        ) =~= scan_places(&found, &scans@.last().info));
                    }
                } else {
                    assert(scans@.drop_last() =~= before_scans);
                    assert forall|i: int| 0 <= i < scans@.len() - 1 implies (
                    #[trigger] scans@[i]) == before_scans[i] by {}
                }
            }
            match taken_marker {
                Ok(Some(marker)) => {
                    previous_marker = marker;
                },
                Ok(None) => {
                    return Ok(());
                },
                Err(e) => {
                    return Err(e);
                },
            }
        }
    }

    /// Whether the decoder `pre` has become `self` by decoding its stream
    /// with the answer `r`. The answer is the conclusion from the way the
    /// marker loop ended. An image has a frame that the decoder decodes and
    /// scans of that frame; its markers came in an order that is allowed;
    /// the blocks decoded are those of its scans, in their order, up to
    /// the place where the last scan broke off. When the decoder has read
    /// the EOI marker, the garbage behind the image is what it took off the
    /// stream behind the marker, and nothing else; no byte is left pending
    /// when an image is returned, and its coefficients are explained by
    /// the blocks gone through. The end of the stream is answered only
    /// when the reader has run out of bytes; two bytes at hand that are no
    /// SOI marker are answered at once, and so is a marker at hand behind
    /// SOI that ends the image or is not allowed there. A decoder that
    /// parses headers only gives the image whose headers stand at hand
    /// without a fault.
    pub open spec fn ran(&self, pre: &JpegDecoder, r: DecodeResult) -> bool {
        let raw = self.consumed().skip(pre.consumed().len() as int);
        let markers = self.markers();
        &&& pre.consumed().is_prefix_of(self.consumed())
        &&& self.header_only() == pre.header_only()
        &&& self.concluded(
            match r {
                Ok(_) => Ok(()),
                Err(e) => Err(e),
            },
        )
        &&& pre.stream().pending().len() >= 2 && pre.stream().processed() + 2 <= usize::MAX
            && !starts_with_soi(pre.stream().pending()) ==> (r matches Err(e)
            && e.is_malformatted("first two bytes is not a SOI marker"@))
        &&& forall|k: int, marker: Marker| #[trigger]
            marker_at_hand(pre.stream().pending().skip(2), k, marker) && starts_with_soi(
                pre.stream().pending(),
            ) && pre.stream().processed() + 2 + k <= usize::MAX ==> first_answer(
                verdict(marker, Marker::SOI, false, 0),
                r,
            )
        &&& pre.header_only() && image_at_hand(pre.stream().pending(), pre.stream().processed())
            ==> r is Ok
        &&& markers.len() > 0 ==> starts_with_soi(raw)
        &&& allowed_up_to(markers, markers.len() - 1)
        &&& self.eoi_end() matches Some(end) ==> {
            &&& pre.consumed().len() + 2 <= end <= self.consumed().len()
            &&& starts_with_soi(raw)
            &&& ends_with_eoi(self.consumed().take(end as int))
            &&& markers.len() > 0 && markers.last() == Marker::EOI
        }
        &&& self.ended() matches Some(end) ==> {
            &&& end.answer is Ok == self.eoi_end() is Some
            &&& end.frame_found ==> has_frame(markers)
            &&& end.handoff_recorded == self.handoff_recorded()
            &&& end.processed <= self.stream().processed()
            &&& r is Err ==> end.processed == self.stream().processed()
            &&& end.answer matches Err(e) ==> {
                &&& r is Err ==> (e is EOF ==> ran_out(&self.stream()))
                &&& markers.len() == 0 ==> {
                    ||| e is EOF
                    ||| e.is_malformatted("stream is too long"@) && self.stream().processed()
                        == usize::MAX
                    ||| e.is_malformatted("first two bytes is not a SOI marker"@) && raw.len()
                        == 2 && !starts_with_soi(raw)
                    ||| e.is_malformatted(
                        "0xFF00 found where marker was expected (read_marker)"@,
                    ) && starts_with_soi(raw)
                }
                &&& markers.len() > 0 ==> verdict_at(markers, markers.len() - 1) is Do || gives(
                    Err::<Step, JpegError>(e),
                    verdict_at(markers, markers.len() - 1),
                )
            }
        }
        &&& match r {
            Ok(jpeg) => {
                &&& jpeg.frame.wf()
                &&& frame_fault(&jpeg.frame) is None
                &&& scans_fit(jpeg.scans@, &jpeg.frame)
                &&& jpeg.format is None == pre.header_only()
                &&& starts_with_soi(raw)
                &&& allowed_up_to(markers, markers.len() as int)
                &&& has_frame(markers)
                &&& self.stream().pending().len() == 0
                &&& self.explained(&Some(jpeg.frame))
                &&& self.eoi_end() is Some && jpeg.format is Some ==> self.visited() == all_places(
                    &jpeg.frame,
                    jpeg.scans@,
                )
                &&& self.ended() matches Some(end) && self.scans_settled(
                    pre.start_byte(),
                    jpeg.scans@,
                    Some(jpeg.frame),
                    match end.answer {
                        Ok(_) => None,
                        Err(e) => Some(e),
                    },
                )
                &&& (self.eoi_end() matches Some(end) ==> jpeg.format matches Some(format) ==> {
                    &&& end <= self.consumed().len()
                    &&& ends_with_eoi(self.consumed().take(end as int))
                    &&& format.grb@ == self.consumed().skip(end as int)
                })
            },
            Err(e) => !(e is EOF),
        }
    }

    /// Decodes the stream: see `decode`.
    pub fn run(&mut self) -> (r: DecodeResult)
        requires
            old(self).fresh(),
        ensures
            final(self).ran(old(self), r),
    {
        let mut frame: Option<FrameInfo> = None;
        let mut scans: Vec<Scan> = Vec::new();
        let mut format = if self.header_only {
            None
        } else {
            Some(FormatInfo::default())
        };
        let ended = self.decode_internal(&mut frame, &mut scans, &mut format);
        proof {
            if ended matches Err(JpegError::EOF) {
                let markers = self.markers@;
                assert forall|i: int| 0 <= i < markers.len() implies #[trigger] verdict_at(
                    markers,
                    i,
                ) is Do by {
                    if i < markers.len() - 1 {
                        assert(allowed_up_to(markers, markers.len() - 1));
                    }
                }
            }
            self.input.lemma_counted_from_in_range();
        }
        let processed = self.input.processed_len();
        self.ended = Ghost(
            Some(
                Ended {
                    answer: ended,
                    frame_found: frame is Some,
                    processed: processed as nat,
                    handoff_recorded: self.handoff_recorded,
                },
            ),
        );
        match conclude(
            ended,
            frame.is_some(),
            format.is_some(),
            processed,
            self.start_byte,
            self.handoff_recorded,
        ) {
            Ok(_) => {},
            Err(e) => {
                return Err(e);
            },
        }
        let frame = match frame {
            Some(frame) => frame,
            None => {
                return Err(JpegError::malformatted("incomplete header"));
            },
        };
        self.input.abort();
        let ghost ended = self.input.consumed();
        proof {
            assert(self.markers@.len() > 0);
        }
        let format = match format {
            Some(mut format) => {
                format.grb.extend_from_slice(self.input.view_retained_data());
                let at_hand = self.input.len();
                let mut rest: Vec<u8> = Vec::new();
                rest.resize(at_hand, 0u8);
                match self.input.read(rest.as_mut_slice(), true, false) {
                    Ok(_) => {
                        format.grb.extend_from_slice(rest.as_slice());
                        proof {
                            assert(rest@.take(at_hand as int) =~= rest@);
                            if self.eoi_end@ is Some {
                                assert(format.grb@ =~= rest@);
                                assert(self.input.consumed().skip(ended.len() as int) =~= rest@);
                                assert(self.input.consumed().take(ended.len() as int) =~= ended);
                            }
                        }
                    },
                    Err(_) => {
                        proof {
                            if self.eoi_end@ is Some {
                                assert(format.grb@ =~= Seq::<u8>::empty());
                                assert(self.input.consumed().skip(ended.len() as int)
                                    =~= Seq::<u8>::empty());
                                assert(self.input.consumed().take(ended.len() as int) =~= ended);
                            }
                        }
                    },
                }
                // What came in meanwhile is garbage too: nothing stays
                // with the reader.
                let ghost read = self.input.consumed();
                let ghost filled = format.grb@;
                let left = self.input.take_pending();
                format.grb.extend_from_slice(left.as_slice());
                proof {
                    if self.eoi_end@ is Some {
                        assert(filled == read.skip(ended.len() as int));
                        assert(format.grb@ =~= filled + left@);
                        assert(self.input.consumed().skip(ended.len() as int) =~= read.skip(
                            ended.len() as int,
                        ) + left@);
                        assert(self.input.consumed().take(ended.len() as int) =~= ended);
                    }
                }
                Some(format)
            },
            None => {
                let _left = self.input.take_pending();
                None
            },
        };
        self.input.close();
        proof {
            lemma_opens_on(old(self).input.consumed(), ended, self.input.consumed());
        }
        Ok(Jpeg { frame, scans, format })
    }

    /// Decodes the stream to its EOI marker, or to the place where it
    /// breaks off within the entropy-coded data, and closes it. What the
    /// decoder has become by it is what `ran` says; what that means for
    /// the answer alone is said here once more.
    pub fn decode(self) -> (r: DecodeResult)
        requires
            self.fresh(),
        ensures
            exists|after: JpegDecoder| #[trigger] after.ran(&self, r),
            self.stream().pending().len() >= 2 && self.stream().processed() + 2 <= usize::MAX
                && !starts_with_soi(self.stream().pending()) ==> (r matches Err(e)
                && e.is_malformatted("first two bytes is not a SOI marker"@)),
            forall|k: int, marker: Marker| #[trigger]
                marker_at_hand(self.stream().pending().skip(2), k, marker) && starts_with_soi(
                    self.stream().pending(),
                ) && self.stream().processed() + 2 + k <= usize::MAX ==> first_answer(
                    verdict(marker, Marker::SOI, false, 0),
                    r,
                ),
            self.header_only() && image_at_hand(self.stream().pending(), self.stream().processed())
                ==> r is Ok,
            match r {
                Ok(jpeg) => {
                    &&& jpeg.frame.wf()
                    &&& frame_fault(&jpeg.frame) is None
                    &&& scans_fit(jpeg.scans@, &jpeg.frame)
                    &&& jpeg.format is None == self.header_only()
                    &&& self.start_byte() == 0 && !self.header_only() ==> forall|i: int|
                        0 <= i < jpeg.scans@.len() ==> (#[trigger] jpeg.scans@[i]).coefficients
                            is Some
                    &&& self.start_byte() > 0 || self.header_only() ==> jpeg.scans@.len() > 0
                        ==> jpeg.scans@[0].coefficients is None
                },
                Err(e) => !(e is EOF),
            },
    {
        let mut decoder = self;
        decoder.run()
    }
}

} // verus!
