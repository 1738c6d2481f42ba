//! What a decode yields: the frame, its scans and the bytes kept for
//! rebuilding the file.
use crate::thread_handoff::ThreadHandoffExt;
use vstd::prelude::*;

verus! {

/// A width and a height.
#[derive(Debug, Clone, Copy, PartialEq, Eq, Structural)]
pub struct Dimensions {
    pub width: u16,
    pub height: u16,
}

/// The coding process of a frame.
#[derive(Debug, Clone, Copy, PartialEq, Eq, Structural)]
pub enum CodingProcess {
    Baseline,
    SequentialExtended,
    Progressive,
    Lossless,
}

/// The entropy coding of a frame.
#[derive(Debug, Clone, Copy, PartialEq, Eq, Structural)]
pub enum EntropyCoding {
    Huffman,
    Arithmetic,
}

/// `a / b`, rounded up.
pub open spec fn ceil_div(a: int, b: int) -> int {
    (a + b - 1) / b
}

/// One component of a frame.
#[derive(Debug, Clone, Copy, PartialEq, Eq, Structural)]
pub struct Component {
    pub identifier: u8,
    pub horizontal_sampling_factor: u8,
    pub vertical_sampling_factor: u8,
    pub quantization_table_index: usize,
    /// The size of the component in samples.
    pub size: Dimensions,
    /// The size of the component in 8x8 blocks, padded to whole MCUs.
    pub size_in_block: Dimensions,
}

impl Component {
    /// Sampling factors in `1..=4` and a quantization table in `0..=3`.
    pub open spec fn wf(&self) -> bool {
        &&& 1 <= self.horizontal_sampling_factor <= 4
        &&& 1 <= self.vertical_sampling_factor <= 4
        &&& self.quantization_table_index <= 3
    }

    /// The number of coefficients of the component: 64 for each block.
    pub open spec fn coefficient_count(&self) -> nat {
        (self.size_in_block.width * self.size_in_block.height * 64) as nat
    }
}

/// What the frame header says of the image.
#[derive(Debug, Clone, PartialEq, Eq)]
pub struct FrameInfo {
    pub is_differential: bool,
    pub coding_process: CodingProcess,
    pub entropy_coding: EntropyCoding,
    pub precision: u8,
    /// The size of the image in pixels.
    pub size: Dimensions,
    /// The size of the image in MCUs of an interleaved scan.
    pub size_in_mcu: Dimensions,
    pub components: Vec<Component>,
}

impl FrameInfo {
    /// The largest horizontal sampling factor among `components`.
    pub open spec fn max_h(components: Seq<Component>) -> int
        decreases components.len(),
    {
        if components.len() == 0 {
            0
        } else {
            let rest = Self::max_h(components.drop_last());
            let h = components.last().horizontal_sampling_factor as int;
            if h > rest {
                h
            } else {
                rest
            }
        }
    }

    /// The largest vertical sampling factor among `components`.
    pub open spec fn max_v(components: Seq<Component>) -> int
        decreases components.len(),
    {
        if components.len() == 0 {
            0
        } else {
            let rest = Self::max_v(components.drop_last());
            let v = components.last().vertical_sampling_factor as int;
            if v > rest {
                v
            } else {
                rest
            }
        }
    }

    /// The frame holds together: between one and 255 components with valid
    /// factors, an MCU grid that covers the image, and for each component a
    /// block grid of its sampling factors times the MCU grid.
    pub open spec fn wf(&self) -> bool {
        &&& 1 <= self.components@.len() <= 255
        &&& self.size.width > 0
        &&& self.size_in_mcu.width == ceil_div(
            self.size.width as int,
            8 * Self::max_h(self.components@),
        )
        &&& self.size_in_mcu.height == ceil_div(
            self.size.height as int,
            8 * Self::max_v(self.components@),
        )
        &&& forall|i: int|
            0 <= i < self.components@.len() ==> {
                let c = #[trigger] self.components@[i];
                &&& c.wf()
                &&& c.size_in_block.width == self.size_in_mcu.width * c.horizontal_sampling_factor
                &&& c.size_in_block.height == self.size_in_mcu.height * c.vertical_sampling_factor
            }
    }

    /// Whether the frame is coded by the baseline process.
    pub fn is_baseline(&self) -> (b: bool)
        ensures
            b == (self.coding_process == CodingProcess::Baseline),
    {
        match self.coding_process {
            CodingProcess::Baseline => true,
            _ => false,
        }
    }

    /// Whether the frame is coded by the progressive process.
    pub fn is_progressive(&self) -> (b: bool)
        ensures
            b == (self.coding_process == CodingProcess::Progressive),
    {
        match self.coding_process {
            CodingProcess::Progressive => true,
            _ => false,
        }
    }
}

/// What a scan header says of the scan.
#[derive(Debug, Clone, PartialEq, Eq)]
pub struct ScanInfo {
    /// For each component of the scan, its place in the frame's components.
    pub component_indices: Vec<usize>,
    pub dc_table_indices: Vec<usize>,
    pub ac_table_indices: Vec<usize>,
    /// The first coefficient of the band that the scan carries (Ss).
    pub spectral_selection_start: u8,
    /// The last coefficient of the band that the scan carries (Se).
    pub spectral_selection_end: u8,
    /// The bit position of the preceding scan of the band, or 0 (Ah).
    pub successive_approximation_high: u8,
    /// The bit position of this scan (Al).
    pub successive_approximation_low: u8,
}

impl ScanInfo {
    /// The scan fits a frame of `component_count` components: between one and
    /// four components of the frame, each with tables in `0..=3`, a band
    /// within `0..=63` and bit positions within `0..=13`.
    pub open spec fn wf(&self, component_count: nat) -> bool {
        &&& 1 <= self.component_indices@.len() <= 4
        &&& self.dc_table_indices@.len() == self.component_indices@.len()
        &&& self.ac_table_indices@.len() == self.component_indices@.len()
        &&& forall|i: int|
            0 <= i < self.component_indices@.len() ==> {
                &&& #[trigger] self.component_indices@[i] < component_count
                &&& self.dc_table_indices@[i] <= 3
                &&& self.ac_table_indices@[i] <= 3
            }
        &&& self.spectral_selection_start <= self.spectral_selection_end <= 63
        &&& self.successive_approximation_high <= 13
        &&& self.successive_approximation_low <= 13
    }
}

/// The block at which a scan broke off.
#[derive(Debug, Clone, Copy, PartialEq, Eq, Structural)]
pub struct ScanTruncation {
    pub component_index: usize,
    pub block_y: usize,
    pub block_x: usize,
}

impl ScanTruncation {
    /// The block of component `component_index` of a scan at row `block_y`
    /// and column `block_x`.
    pub fn new(component_index: usize, block_y: usize, block_x: usize) -> (truncation: Self)
        ensures
            truncation == (ScanTruncation { component_index, block_y, block_x }),
    {
        ScanTruncation { component_index, block_y, block_x }
    }
}

/// One scan of the image.
#[derive(Debug, Clone, PartialEq, Eq)]
pub struct Scan {
    /// The bytes of the file from the end of the preceding scan (or the start
    /// of the file) to the end of this scan's header.
    pub raw_header: Vec<u8>,
    pub info: ScanInfo,
    /// The coefficients of every component of the frame as they stand after
    /// this scan, 64 for each block in zigzag-free natural order.
    pub coefficients: Option<Vec<Vec<i16>>>,
    pub truncation: Option<ScanTruncation>,
}

impl Scan {
    /// A scan of which only the header is known.
    pub fn new(raw_header: &[u8], info: ScanInfo) -> (scan: Self)
        ensures
            scan.raw_header@ == raw_header@,
            scan.info == info,
            scan.coefficients is None,
            scan.truncation is None,
    {
        Scan {
            raw_header: vstd::slice::slice_to_vec(raw_header),
            info,
            coefficients: None,
            truncation: None,
        }
    }
}

/// The bytes and checkpoints that rebuilding the file needs beside the
/// coefficients.
#[derive(Debug, Clone, PartialEq, Eq)]
pub struct FormatInfo {
    /// Bytes consumed ahead of the place where decoding proper begins.
    pub pge: Vec<u8>,
    /// Bytes behind the image, or behind the place where a scan broke off.
    pub grb: Vec<u8>,
    pub handoff: Vec<ThreadHandoffExt>,
}

impl Default for FormatInfo {
    fn default() -> (format: Self)
        ensures
            format.pge@.len() == 0,
            format.grb@.len() == 0,
            format.handoff@.len() == 0,
    {
        FormatInfo { pge: Vec::new(), grb: Vec::new(), handoff: Vec::new() }
    }
}

/// A decoded image.
#[derive(Debug, Clone, PartialEq, Eq)]
pub struct Jpeg {
    pub frame: FrameInfo,
    pub scans: Vec<Scan>,
    pub format: Option<FormatInfo>,
}

} // verus!
