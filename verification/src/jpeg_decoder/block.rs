//! The decoding of one block: the first pass, which sets its coefficients,
//! and the later passes, which add one bit to them. Each pass is stated as
//! a machine that takes the readings off the bits one by one.
use crate::iostream::InputStream;
use crate::jpeg_decoder::error::JpegError;
use crate::jpeg_decoder::error::JpegResult;
use crate::jpeg_decoder::huffman::lemma_worked_refl;
use crate::jpeg_decoder::huffman::lemma_worked_trans;
use crate::jpeg_decoder::huffman::two_pow;
use crate::jpeg_decoder::huffman::met_the_end;
use crate::jpeg_decoder::huffman::Draw;
use crate::jpeg_decoder::huffman::HuffmanDecoder;
use crate::jpeg_decoder::huffman::HuffmanTable;
use crate::jpeg_decoder::huffman::Reading;
use vstd::arithmetic::power2::*;
use vstd::prelude::*;

verus! {

/// The place in a block, in natural order, of each coefficient in the order
/// of the file.
pub open spec fn unzigzag_table() -> Seq<usize> {
    seq![
        0, 1, 8, 16, 9, 2, 3, 10, 17, 24, 32, 25, 18, 11, 4, 5, 12, 19, 26, 33, 40, 48, 41, 34,
        27, 20, 13, 6, 7, 14, 21, 28, 35, 42, 49, 56, 57, 50, 43, 36, 29, 22, 15, 23, 30, 37, 44,
        51, 58, 59, 52, 45, 38, 31, 39, 46, 53, 60, 61, 54, 47, 55, 62, 63,
    ]
}

/// The place in a block, in natural order, of coefficient `index` of the
/// file.
pub fn unzigzag(index: u8) -> (place: usize)
    requires
        index < 64,
    ensures
        place == unzigzag_table()[index as int],
        place < 64,
{
    let table: [u8; 64] = [
        0, 1, 8, 16, 9, 2, 3, 10, 17, 24, 32, 25, 18, 11, 4, 5, 12, 19, 26, 33, 40, 48, 41, 34,
        27, 20, 13, 6, 7, 14, 21, 28, 35, 42, 49, 56, 57, 50, 43, 36, 29, 22, 15, 23, 30, 37, 44,
        51, 58, 59, 52, 45, 38, 31, 39, 46, 53, 60, 61, 54, 47, 55, 62, 63,
    ];
    table[index as usize] as usize
}

/// The order of the file is a permutation of the places of a block: every
/// coefficient of the file has a place in the block, and no two have the
/// same.
pub proof fn law_unzigzag_is_a_permutation()
    ensures
        unzigzag_table().len() == 64,
        forall|i: int| 0 <= i < 64 ==> #[trigger] unzigzag_table()[i] < 64,
        forall|i: int, j: int|
            0 <= i < j < 64 ==> #[trigger] unzigzag_table()[i] != #[trigger] unzigzag_table()[j],
{
}

/// A DC difference has a magnitude category of at most 11.
pub fn check_dc_category(category: u8) -> (r: JpegResult<()>)
    ensures
        match r {
            Ok(_) => category <= 11,
            Err(e) => category > 11 && e.is_malformatted(
                "invalid DC difference magnitude category"@,
            ),
        },
{
    if category > 11 {
        Err(JpegError::malformatted("invalid DC difference magnitude category"))
    } else {
        Ok(())
    }
}

/// `value` brought into the range of `i16` by a multiple of 65536.
pub open spec fn wrap_i16(value: int) -> int {
    let low = value % 65536;
    if low >= 32768 {
        low - 65536
    } else {
        low
    }
}

/// The DC value of a block: the DC value of the block before it plus the
/// difference, wrapping around at the ends of `i16`.
pub fn predict_dc(predictor: i16, diff: i16) -> (dc: i16)
    ensures
        dc == wrap_i16(predictor + diff),
{
    let sum = predictor as i32 + diff as i32;
    if sum > 32767 {
        (sum - 65536) as i16
    } else if sum < -32768 {
        (sum + 65536) as i16
    } else {
        sum as i16
    }
}

/// Whether `e` is an error that decoding may end with when it leaves the
/// decoder as `huffman`: the end of the stream only if the decoder lacks
/// bits and no marker has ended the data, or else a fault of the data.
pub open spec fn is_starved_or_faulty(e: JpegError, huffman: &HuffmanDecoder) -> bool {
    ||| huffman.state().starved(e, 16)
    ||| e.is_malformatted("failed to decode huffman code"@)
    ||| e.is_malformatted("invalid DC difference magnitude category"@)
    ||| e.is_malformatted("unexpected huffman code"@)
}

/// Whether the table is there and well-formed.
pub open spec fn table_ready(table: Option<&HuffmanTable>) -> bool {
    table matches Some(found) && found.wf()
}

/// The error of a decoding step is the end of the stream or a fault of the
/// stream.
pub open spec fn is_decoding_error(e: JpegError) -> bool {
    e is EOF || e is Malformatted
}

/// Whether a marker that `pre` had seen has kept the decoder off the
/// stream on its way to `post`: behind a marker zero bits stand in, so no
/// byte is taken, and the marker stays seen.
pub open spec fn marker_kept(
    pre: &HuffmanDecoder,
    post: &HuffmanDecoder,
    pre_input: &InputStream,
    post_input: &InputStream,
) -> bool {
    pre.state().marker is Some ==> post_input.same_as(pre_input) && post.state().marker
        == pre.state().marker
}

/// Whether the draw was made with the table that is due: a code with
/// `code_table`, a short coefficient with `ac_table`, bits with none.
pub open spec fn table_fits(
    draw: Draw,
    code_table: Option<HuffmanTable>,
    ac_table: Option<HuffmanTable>,
) -> bool {
    match draw.reading {
        Reading::Code(_) => draw.table == code_table,
        Reading::Short(_) => draw.table == ac_table,
        _ => draw.table is None,
    }
}

/// Whether the decoder `post` has made its draws since `pre` in turn: the
/// first from the bits that `pre` held, each other from the bits that the
/// draw before it left. A code that is drawn first is one of the table
/// `first`, every other code one of `ac_table`.
pub open spec fn drawn_in_turn(
    pre: &HuffmanDecoder,
    post: &HuffmanDecoder,
    first: Option<HuffmanTable>,
    ac_table: Option<HuffmanTable>,
) -> bool {
    let from = pre.draws().len() as int;
    let draws = post.draws();
    &&& pre.draws().is_prefix_of(draws)
    &&& draws.len() > from ==> draws[from].before == pre.state()
    &&& forall|i: int, j: int|
        from <= i && j == i + 1 && j < draws.len() ==> (#[trigger] draws[j]).before == (
        #[trigger] draws[i]).after
    &&& forall|i: int|
        from <= i < draws.len() ==> table_fits(
            #[trigger] draws[i],
            if i == from {
                first
            } else {
                ac_table
            },
            ac_table,
        )
}

/// Whether the bit reader of `post` is as its last draw since `pre` left
/// it, or as `pre` had it if there is none.
pub open spec fn settled(pre: &HuffmanDecoder, post: &HuffmanDecoder) -> bool {
    post.state() == if post.draws().len() > pre.draws().len() {
        post.draws().last().after
    } else {
        pre.state()
    }
}

/// Draws made in turn in two goes are made in turn.
pub proof fn lemma_drawn_trans(
    pre: &HuffmanDecoder,
    mid: &HuffmanDecoder,
    post: &HuffmanDecoder,
    first: Option<HuffmanTable>,
    ac_table: Option<HuffmanTable>,
)
    requires
        drawn_in_turn(pre, mid, first, ac_table),
        settled(pre, mid),
        drawn_in_turn(
            mid,
            post,
            if mid.draws().len() > pre.draws().len() {
                ac_table
            } else {
                first
            },
            ac_table,
        ),
    ensures
        drawn_in_turn(pre, post, first, ac_table),
        settled(mid, post) ==> settled(pre, post),
{
    let from = pre.draws().len() as int;
    let between = mid.draws().len() as int;
    let draws = post.draws();
    assert forall|i: int| from <= i < between implies #[trigger] draws[i] == mid.draws()[i] by {}
    assert forall|i: int, j: int| from <= i && j == i + 1 && j < draws.len() implies (
    #[trigger] draws[j]).before == (#[trigger] draws[i]).after by {
        if j < between {
            assert(mid.draws()[j].before == mid.draws()[i].after);
        } else if j == between {
            assert(draws[i] == mid.draws().last());
        }
    }
    assert forall|i: int| from <= i < draws.len() implies table_fits(
        #[trigger] draws[i],
        if i == from {
            first
        } else {
            ac_table
        },
        ac_table,
    ) by {
        if i < between {
            assert(table_fits(
                mid.draws()[i],
                if i == from {
                    first
                } else {
                    ac_table
                },
                ac_table,
            ));
        }
    }
    if draws.len() > from {
        if between > from {
            assert(draws[from] == mid.draws()[from]);
        }
    }
}

/// Draws made in turn and one more draw, made from the bits that were
/// left, are made in turn.
pub proof fn lemma_drawn_step(
    pre: &HuffmanDecoder,
    mid: &HuffmanDecoder,
    post: &HuffmanDecoder,
    first: Option<HuffmanTable>,
    ac_table: Option<HuffmanTable>,
)
    requires
        drawn_in_turn(pre, mid, first, ac_table),
        settled(pre, mid),
        mid.draws().is_prefix_of(post.draws()),
        post.draws().len() <= mid.draws().len() + 1,
        post.draws().len() > mid.draws().len() ==> post.draws().last().before == mid.state()
            && table_fits(
            post.draws().last(),
            if mid.draws().len() > pre.draws().len() {
                ac_table
            } else {
                first
            },
            ac_table,
        ),
    ensures
        drawn_in_turn(pre, post, first, ac_table),
        post.draws().len() > mid.draws().len() && post.draws().last().after == post.state()
            ==> settled(pre, post),
{
    let between = mid.draws().len() as int;
    let draws = post.draws();
    assert(drawn_in_turn(
        mid,
        post,
        if mid.draws().len() > pre.draws().len() {
            ac_table
        } else {
            first
        },
        ac_table,
    )) by {
        if draws.len() > between {
            assert(draws[between] == draws.last());
        }
    }
    lemma_drawn_trans(pre, mid, post, first, ac_table);
}

/// The band of coefficients that a scan carries and the bit position that
/// it carries them at.
pub struct Band {
    pub start: u8,
    pub end: u8,
    pub low: u8,
}

/// `value` scaled by `2^low`; the bits that leave the 16 bits are lost.
pub open spec fn scaled(value: i16, low: u8) -> i16 {
    value << low
}

/// What the first pass over a block takes next.
pub enum Phase {
    /// The code of the category of the DC difference.
    Dc,
    /// The bits of a DC difference of this category.
    DcBits(u8),
    /// A short AC coefficient that goes to this place of the file or
    /// behind it, or the finding that the bits hold none.
    Ac(u8),
    /// The code of a run and a size; the run starts at this place.
    AcCode(u8),
    /// The bits of the coefficient of this size for this place.
    AcBits(u8, u8),
    /// The bits that say how far the end-of-band run of this order goes.
    EobBits(u8),
    /// Nothing: the block is done.
    Done,
    /// Nothing: the category of the DC difference was none.
    Fault,
}

/// The first pass over a block while it is under way.
pub struct BlockState {
    pub phase: Phase,
    pub block: Seq<i16>,
    pub eob_run: u16,
    pub dc_predictor: i16,
}

impl BlockState {
    /// The pass with the phase changed.
    pub open spec fn to(self, phase: Phase) -> BlockState {
        BlockState { phase, ..self }
    }

    /// The pass as it goes on at place `index` of the file: it is done
    /// behind the band.
    pub open spec fn at(self, index: int, band: Band) -> BlockState {
        self.to(
            if index > band.end {
                Phase::Done
            } else {
                Phase::Ac(index as u8)
            },
        )
    }

    /// The pass with `value`, scaled, at place `index` of the file.
    pub open spec fn put(self, index: int, value: i16, band: Band) -> BlockState {
        BlockState {
            block: self.block.update(unzigzag_table()[index] as int, scaled(value, band.low)),
            ..self
        }
    }

    /// The pass as it turns to the AC coefficients: a block within an
    /// end-of-band run has none of its own and is done; else the pass goes
    /// on at the head of the band, or at place 1 if the band opens with the
    /// DC coefficient.
    pub open spec fn enter_ac(self, band: Band) -> BlockState {
        if self.eob_run > 0 {
            BlockState { phase: Phase::Done, eob_run: (self.eob_run - 1) as u16, ..self }
        } else if band.start > 1 {
            self.at(band.start as int, band)
        } else {
            self.at(1, band)
        }
    }

    /// The pass with the DC coefficient set: the DC value of the block
    /// before plus `diff`, wrapping around.
    pub open spec fn set_dc(self, diff: i16, band: Band) -> BlockState {
        let dc = wrap_i16(self.dc_predictor + diff) as i16;
        BlockState {
            dc_predictor: dc,
            block: self.block.update(0, scaled(dc, band.low)),
            ..self
        }.enter_ac(band)
    }

    /// The pass as it starts.
    pub open spec fn start(block: Seq<i16>, eob_run: u16, dc_predictor: i16, band: Band) -> BlockState {
        let state = BlockState { phase: Phase::Dc, block, eob_run, dc_predictor };
        if band.start == 0 {
            state
        } else {
            state.enter_ac(band)
        }
    }

    /// The pass after it took `reading`.
    pub open spec fn step(self, reading: Reading, band: Band) -> BlockState {
        match (self.phase, reading) {
            (Phase::Dc, Reading::Code(category)) => if category == 0 {
                self.set_dc(0, band)
            } else if category > 11 {
                self.to(Phase::Fault)
            } else {
                self.to(Phase::DcBits(category))
            },
            (Phase::DcBits(category), Reading::Value(count, diff)) => if count == category {
                self.set_dc(diff, band)
            } else {
                self.to(Phase::Fault)
            },
            (Phase::Ac(index), Reading::Short(Some((value, run)))) => if index + run > band.end {
                self.to(Phase::Done)
            } else {
                self.put(index + run, value, band).at(index + run + 1, band)
            },
            (Phase::Ac(index), Reading::Short(None)) => self.to(Phase::AcCode(index)),
            (Phase::AcCode(index), Reading::Code(byte)) => {
                let run = byte / 16;
                let size = byte % 16;
                if size == 0 {
                    if run == 15 {
                        // Sixteen zero coefficients.
                        self.at(index + 16, band)
                    } else if run == 0 {
                        BlockState { phase: Phase::Done, eob_run: 0, ..self }
                    } else {
                        self.to(Phase::EobBits(run))
                    }
                } else if index + run > band.end {
                    self.to(Phase::Done)
                } else {
                    self.to(Phase::AcBits((index + run) as u8, size))
                }
            },
            (Phase::AcBits(index, size), Reading::Value(count, value)) => if count == size {
                self.put(index as int, value, band).at(index + 1, band)
            } else {
                self.to(Phase::Fault)
            },
            (Phase::EobBits(order), Reading::Bits(count, more)) => if count == order {
                BlockState {
                    phase: Phase::Done,
                    eob_run: (pow2(order as nat) - 1 + more) as u16,
                    ..self
                }
            } else {
                self.to(Phase::Fault)
            },
            _ => self.to(Phase::Fault),
        }
    }

    /// The pass after it took `readings` one by one.
    pub open spec fn run(self, readings: Seq<Reading>, band: Band) -> BlockState
        decreases readings.len(),
    {
        if readings.len() == 0 {
            self
        } else {
            self.run(readings.drop_last(), band).step(readings.last(), band)
        }
    }
}

/// Whether `r` is the answer that the first pass over a block owes when it
/// has come to `outcome`: success when the block is done, the fault of the
/// DC category, or else whatever stopped the reading of the bits.
pub open spec fn answers(r: JpegResult<()>, outcome: BlockState) -> bool {
    match r {
        Ok(_) => outcome.phase is Done,
        Err(e) => if outcome.phase is Fault {
            e.is_malformatted("invalid DC difference magnitude category"@)
        } else {
            &&& !(outcome.phase is Done)
            &&& {
                ||| e is EOF
                ||| e.is_malformatted("stream is too long"@)
                ||| e.is_malformatted("failed to decode huffman code"@)
            }
        },
    }
}

/// Whether `e` is the error of a decoder that lacks bits and is left as
/// `huffman`, with the stream left as `input`: no marker has ended the
/// data, and the stream gave no more bytes. The end of the stream is
/// answered only when the reader holds no byte that could be used.
pub open spec fn lacking(e: JpegError, huffman: &HuffmanDecoder, input: &InputStream) -> bool {
    huffman.state().starved(e, 16) && met_the_end(e, input)
}

/// Whether `e` is the error of a decoder that is left as `huffman` and
/// whose next bits spell no code of `table`.
pub open spec fn code_missing(e: JpegError, huffman: &HuffmanDecoder, table: Option<HuffmanTable>) -> bool {
    &&& e.is_malformatted("failed to decode huffman code"@)
    &&& table matches Some(found) && huffman.state().decoded(&found) is None
}

/// The table that the reference leads to, if there is one.
pub open spec fn owned(table: Option<&HuffmanTable>) -> Option<HuffmanTable> {
    match table {
        Some(found) => Some(*found),
        None => None,
    }
}

/// Whether `e` is the error that stops the first pass over a block in the
/// phase `phase` and leaves the decoder as `huffman`. Where the pass was to
/// take a code, the next bits spell none of the table, or the decoder lacks
/// bits; where it was to take bits, the decoder lacks them. A decoder lacks
/// bits only where the stream gave no more and no marker has ended the
/// data.
pub open spec fn stopped(
    e: JpegError,
    phase: Phase,
    huffman: &HuffmanDecoder,
    input: &InputStream,
    dc_table: Option<HuffmanTable>,
    ac_table: Option<HuffmanTable>,
) -> bool {
    match phase {
        Phase::Dc => lacking(e, huffman, input) || code_missing(e, huffman, dc_table),
        Phase::AcCode(_) => lacking(e, huffman, input) || code_missing(e, huffman, ac_table),
        Phase::Fault => e.is_malformatted("invalid DC difference magnitude category"@),
        Phase::Done => false,
        _ => lacking(e, huffman, input),
    }
}

/// Whether the reading is the code of a category of a DC difference that
/// there is none of: one above 11.
pub open spec fn over_category(reading: Reading) -> bool {
    reading matches Reading::Code(category) && category > 11
}

/// Whether the readings `readings` have led the pass that starts as
/// `start` to a fault by nothing but such a code, taken where the code of
/// the category of the DC difference was due.
pub open spec fn faulted(start: BlockState, readings: Seq<Reading>, band: Band) -> bool {
    &&& readings.len() > 0
    &&& start.run(readings.drop_last(), band).phase is Dc
    &&& over_category(readings.last())
}

/// Whether the pass has ended.
pub open spec fn is_over(phase: Phase) -> bool {
    phase is Done || phase is Fault
}

/// Whether the readings `readings` are read within the pass that starts
/// as `start`: the pass has not ended before the last of them.
pub open spec fn read_within(start: BlockState, readings: Seq<Reading>, band: Band) -> bool {
    forall|k: int|
        0 <= k < readings.len() ==> !is_over(#[trigger] start.run(readings.take(k), band).phase)
}

impl BlockState {
    /// A pass that has ended and still takes a reading is at fault.
    pub proof fn lemma_over_stays(self, readings: Seq<Reading>, band: Band)
        requires
            is_over(self.phase),
            readings.len() > 0,
        ensures
            self.run(readings, band).phase is Fault,
        decreases readings.len(),
    {
        if readings.len() > 1 {
            self.lemma_over_stays(readings.drop_last(), band);
        } else {
            reveal_with_fuel(BlockState::run, 2);
            assert(readings.drop_last() =~= Seq::<Reading>::empty());
        }
    }

    /// Readings are read within the pass if the pass had not ended before
    /// the last of them.
    pub proof fn lemma_read_within(self, readings: Seq<Reading>, band: Band)
        requires
            readings.len() > 0 ==> !is_over(self.run(readings.drop_last(), band).phase),
        ensures
            read_within(self, readings, band),
    {
        assert forall|k: int| 0 <= k < readings.len() implies !is_over(
            #[trigger] self.run(readings.take(k), band).phase,
        ) by {
            let head = readings.take(k);
            if k < readings.len() - 1 {
                let rest = readings.subrange(k, readings.len() - 1);
                assert(readings.drop_last() =~= head + rest);
                self.lemma_run_concat(head, rest, band);
                if is_over(self.run(head, band).phase) {
                    self.run(head, band).lemma_over_stays(rest, band);
                }
            } else {
                assert(head =~= readings.drop_last());
            }
        }
    }

    /// Readings that leave the pass without a fault are read within it.
    pub proof fn lemma_sound_within(self, readings: Seq<Reading>, band: Band)
        requires
            !(self.run(readings, band).phase is Fault),
        ensures
            read_within(self, readings, band),
    {
        if readings.len() > 0 {
            let before = self.run(readings.drop_last(), band);
            if is_over(before.phase) {
                before.lemma_over_stays(seq![readings.last()], band);
                before.lemma_run_one(readings.last(), band);
            }
        }
        self.lemma_read_within(readings, band);
    }
}

/// What was read since `first` is what was read up to `mid` and what was
/// read since.
pub proof fn lemma_read_since_trans(
    first: &HuffmanDecoder,
    mid: &HuffmanDecoder,
    last: &HuffmanDecoder,
)
    requires
        first.readings().is_prefix_of(mid.readings()),
        mid.readings().is_prefix_of(last.readings()),
    ensures
        first.readings().is_prefix_of(last.readings()),
        last.read_since(first) == mid.read_since(first) + last.read_since(mid),
{
    assert(last.read_since(first) =~= mid.read_since(first) + last.read_since(mid));
}

proof fn lemma_read_nothing(first: &HuffmanDecoder, last: &HuffmanDecoder)
    requires
        first.readings() == last.readings(),
    ensures
        first.readings().is_prefix_of(last.readings()),
        last.read_since(first) == Seq::<Reading>::empty(),
{
    assert(last.read_since(first) =~= Seq::<Reading>::empty());
}

proof fn lemma_read_one(first: &HuffmanDecoder, last: &HuffmanDecoder, reading: Reading)
    requires
        last.readings() == first.readings().push(reading),
    ensures
        first.readings().is_prefix_of(last.readings()),
        last.read_since(first) == seq![reading],
{
    assert(last.read_since(first) =~= seq![reading]);
}

impl BlockState {
    /// Readings taken in two goes are taken one by one.
    pub proof fn lemma_run_concat(self, first: Seq<Reading>, second: Seq<Reading>, band: Band)
        ensures
            self.run(first + second, band) == self.run(first, band).run(second, band),
        decreases second.len(),
    {
        if second.len() == 0 {
            assert(first + second =~= first);
        } else {
            self.lemma_run_concat(first, second.drop_last(), band);
            assert((first + second).drop_last() =~= first + second.drop_last());
        }
    }

    /// The pass after no reading.
    pub proof fn lemma_run_none(self, band: Band)
        ensures
            self.run(Seq::<Reading>::empty(), band) == self,
    {
    }

    /// The pass after one reading.
    pub proof fn lemma_run_one(self, a: Reading, band: Band)
        ensures
            self.run(seq![a], band) == self.step(a, band),
    {
        assert(seq![a].drop_last() =~= Seq::<Reading>::empty());
        reveal_with_fuel(BlockState::run, 2);
    }

    /// The pass after two readings.
    pub proof fn lemma_run_two(self, a: Reading, b: Reading, band: Band)
        ensures
            self.run(seq![a, b], band) == self.step(a, band).step(b, band),
    {
        assert(seq![a].drop_last() =~= Seq::<Reading>::empty());
        assert(seq![a, b].drop_last() =~= seq![a]);
        reveal_with_fuel(BlockState::run, 3);
    }
}

/// Decodes the DC coefficient of the first pass over a block.
fn decode_dc(
    input: &mut InputStream,
    coefficients: &mut [i16],
    huffman: &mut HuffmanDecoder,
    table: &HuffmanTable,
    low: u8,
    dc_predictor: &mut i16,
    Ghost(state): Ghost<BlockState>,
    Ghost(band): Ghost<Band>,
) -> (r: JpegResult<()>)
    requires
        old(coefficients)@.len() == 64,
        old(huffman).wf(),
        old(input).wf(),
        table.wf(),
        low <= 13,
        band.low == low,
        state.phase == Phase::Dc,
        state.block == old(coefficients)@,
        state.dc_predictor == *old(dc_predictor),
    ensures
        final(huffman).worked(old(huffman), old(input), final(input)),
        old(huffman).readings().is_prefix_of(final(huffman).readings()),
        r matches Err(e) ==> is_starved_or_faulty(e, final(huffman)),
        marker_kept(old(huffman), final(huffman), old(input), final(input)),
        r matches Err(e) ==> stopped(
            e,
            state.run(final(huffman).read_since(old(huffman)), band).phase,
            final(huffman),
            final(input),
            Some(*table),
            None,
        ),
        state.run(final(huffman).read_since(old(huffman)), band).phase is Fault ==> final(huffman).read_since(old(huffman)).len() == 1
            && over_category(final(huffman).read_since(old(huffman))[0]),
        forall|ac_table: Option<HuffmanTable>| #[trigger]
            drawn_in_turn(old(huffman), final(huffman), Some(*table), ac_table),
        r is Ok ==> settled(old(huffman), final(huffman)) && final(huffman).draws().len() > old(huffman).draws().len(),
        ({
            let outcome = state.run(final(huffman).read_since(old(huffman)), band);
            &&& final(coefficients)@.len() == 64
            &&& match r {
                Ok(_) => {
                    &&& final(coefficients)@ == outcome.block
                    &&& *final(dc_predictor) == outcome.dc_predictor
                    &&& exists|diff: i16| outcome == #[trigger] state.set_dc(diff, band)
                },
                Err(e) => {
                    &&& final(coefficients)@ == outcome.block
                    &&& *final(dc_predictor) == outcome.dc_predictor
                    &&& outcome.eob_run == state.eob_run
                    &&& answers(r, outcome)
                },
            }
        }),
{
    proof {
        lemma_worked_refl(huffman, input);
    }
    let value = match huffman.decode(input, table) {
        Ok(value) => value,
        Err(e) => {
            proof {
                lemma_read_nothing(old(huffman), huffman);
                state.lemma_run_none(band);
            }
            return Err(e);
        },
    };
    let ghost mid_huffman = *huffman;
    let ghost mid_input = *input;
    proof {
        lemma_read_one(old(huffman), huffman, Reading::Code(value));
        state.lemma_run_one(Reading::Code(value), band);
    }
    let diff = if value == 0 {
        0
    } else {
        match check_dc_category(value) {
            Ok(_) => {},
            Err(e) => {
                return Err(e);
            },
        }
        match huffman.receive_extend(input, value) {
            Ok(diff) => {
                proof {
                    lemma_worked_trans(
                        old(huffman),
                        &mid_huffman,
                        huffman,
                        old(input),
                        &mid_input,
                        input,
                    );
                    lemma_read_one(&mid_huffman, huffman, Reading::Value(value, diff));
                    lemma_read_since_trans(old(huffman), &mid_huffman, huffman);
                    assert(huffman.read_since(old(huffman)) =~= seq![
                        Reading::Code(value),
                        Reading::Value(value, diff),
                    ]);
                    state.lemma_run_two(Reading::Code(value), Reading::Value(value, diff), band);
                }
                diff
            },
            Err(e) => {
                proof {
                    lemma_worked_trans(
                        old(huffman),
                        &mid_huffman,
                        huffman,
                        old(input),
                        &mid_input,
                        input,
                    );
                    lemma_read_nothing(&mid_huffman, huffman);
                    lemma_read_since_trans(old(huffman), &mid_huffman, huffman);
                    assert(huffman.read_since(old(huffman)) =~= seq![Reading::Code(value)]);
                }
                return Err(e);
            },
        }
    };
    // A malicious file can make this sum overflow: that is allowed.
    *dc_predictor = predict_dc(*dc_predictor, diff);
    coefficients[0] = *dc_predictor << low;
    proof {
        let outcome = state.run(huffman.read_since(old(huffman)), band);
        assert(outcome == state.set_dc(diff, band));
    }
    Ok(())
}

/// Decodes what the first pass over a block holds for the place `index` of
/// the file: a coefficient behind a run of zeros, a run of sixteen zeros,
/// or the end of the band. It gives the place at which the pass goes on,
/// or a place behind the band if the block is done.
fn decode_ac(
    input: &mut InputStream,
    coefficients: &mut [i16],
    huffman: &mut HuffmanDecoder,
    table: &HuffmanTable,
    index: u8,
    end: u8,
    low: u8,
    eob_run: &mut u16,
    Ghost(state): Ghost<BlockState>,
    Ghost(band): Ghost<Band>,
) -> (r: JpegResult<u8>)
    requires
        old(coefficients)@.len() == 64,
        old(huffman).wf(),
        old(input).wf(),
        table.wf(),
        1 <= index <= end <= 63,
        low <= 13,
        band.low == low,
        band.end == end,
        state.phase == Phase::Ac(index),
        state.block == old(coefficients)@,
        state.eob_run == *old(eob_run),
    ensures
        final(huffman).worked(old(huffman), old(input), final(input)),
        old(huffman).readings().is_prefix_of(final(huffman).readings()),
        r matches Err(e) ==> is_starved_or_faulty(e, final(huffman)),
        marker_kept(old(huffman), final(huffman), old(input), final(input)),
        r matches Err(e) ==> stopped(
            e,
            state.run(final(huffman).read_since(old(huffman)), band).phase,
            final(huffman),
            final(input),
            None,
            Some(*table),
        ),
        forall|first: Option<HuffmanTable>| #[trigger]
            drawn_in_turn(old(huffman), final(huffman), first, Some(*table)),
        r is Ok ==> settled(old(huffman), final(huffman)) && final(huffman).draws().len() > old(huffman).draws().len(),
        ({
            let outcome = state.run(final(huffman).read_since(old(huffman)), band);
            &&& final(coefficients)@ == outcome.block
            &&& final(coefficients)@.len() == 64
            &&& *final(eob_run) == outcome.eob_run
            &&& outcome.dc_predictor == state.dc_predictor
            &&& match r {
                Ok(next) => index < next <= end + 17 && outcome.phase == (if next > end {
                    Phase::Done
                } else {
                    Phase::Ac(next)
                }),
                Err(e) => answers(Err::<(), JpegError>(e), outcome) && !(outcome.phase is Fault),
            }
        }),
{
    proof {
        lemma_worked_refl(huffman, input);
    }
    let fast = match huffman.decode_fast_ac(input, table) {
        Ok(fast) => fast,
        Err(e) => {
            proof {
                lemma_read_nothing(old(huffman), huffman);
                state.lemma_run_none(band);
            }
            return Err(e);
        },
    };
    let ghost fast_huffman = *huffman;
    let ghost fast_input = *input;
    proof {
        lemma_read_one(old(huffman), huffman, Reading::Short(fast));
        state.lemma_run_one(Reading::Short(fast), band);
    }
    if let Some((value, run)) = fast {
        if run > 63 || index + run > end {
            return Ok(end + 1);
        }
        let place = index + run;
        coefficients[unzigzag(place)] = value << low;
        return Ok(place + 1);
    }
    let byte = match huffman.decode(input, table) {
        Ok(byte) => byte,
        Err(e) => {
            proof {
                lemma_worked_trans(
                    old(huffman),
                    &fast_huffman,
                    huffman,
                    old(input),
                    &fast_input,
                    input,
                );
                lemma_read_nothing(&fast_huffman, huffman);
                lemma_read_since_trans(old(huffman), &fast_huffman, huffman);
                assert(huffman.read_since(old(huffman)) =~= seq![Reading::Short(fast)]);
            }
            return Err(e);
        },
    };
    let ghost code_huffman = *huffman;
    let ghost code_input = *input;
    let ghost coded = state.step(Reading::Short(fast), band).step(Reading::Code(byte), band);
    proof {
        lemma_worked_trans(old(huffman), &fast_huffman, huffman, old(input), &fast_input, input);
        lemma_read_one(&fast_huffman, huffman, Reading::Code(byte));
        lemma_read_since_trans(old(huffman), &fast_huffman, huffman);
        assert(huffman.read_since(old(huffman)) =~= seq![
            Reading::Short(fast),
            Reading::Code(byte),
        ]);
        state.lemma_run_two(Reading::Short(fast), Reading::Code(byte), band);
    }
    let r = byte / 16;
    let s = byte % 16;
    if s == 0 {
        if r == 15 {
            // A run of 16 zero coefficients.
            return Ok(index + 16);
        }
        proof {
            lemma_pow2_strictly_increases(r as nat, 15);
            lemma2_to64();
        }
        let mut run = (two_pow(r) - 1) as u16;
        if r > 0 {
            let more = match huffman.get_bits(input, r) {
                Ok(more) => more,
                Err(e) => {
                    proof {
                        lemma_worked_trans(
                            old(huffman),
                            &code_huffman,
                            huffman,
                            old(input),
                            &code_input,
                            input,
                        );
                        lemma_read_nothing(&code_huffman, huffman);
                        lemma_read_since_trans(old(huffman), &code_huffman, huffman);
                        assert(huffman.read_since(old(huffman)) =~= seq![
                            Reading::Short(fast),
                            Reading::Code(byte),
                        ]);
                    }
                    return Err(e);
                },
            };
            proof {
                lemma_worked_trans(
                    old(huffman),
                    &code_huffman,
                    huffman,
                    old(input),
                    &code_input,
                    input,
                );
                lemma_read_one(&code_huffman, huffman, Reading::Bits(r, more));
                lemma_read_since_trans(old(huffman), &code_huffman, huffman);
                let two = seq![Reading::Short(fast), Reading::Code(byte)];
                assert(huffman.read_since(old(huffman)) =~= two + seq![Reading::Bits(r, more)]);
                state.lemma_run_concat(two, seq![Reading::Bits(r, more)], band);
                coded.lemma_run_one(Reading::Bits(r, more), band);
            }
            run = run + more;
        }
        *eob_run = run;
        return Ok(end + 1);
    }
    if index + r > end {
        return Ok(end + 1);
    }
    let place = index + r;
    let value = match huffman.receive_extend(input, s) {
        Ok(value) => value,
        Err(e) => {
            proof {
                lemma_worked_trans(
                    old(huffman),
                    &code_huffman,
                    huffman,
                    old(input),
                    &code_input,
                    input,
                );
                lemma_read_nothing(&code_huffman, huffman);
                lemma_read_since_trans(old(huffman), &code_huffman, huffman);
                assert(huffman.read_since(old(huffman)) =~= seq![
                    Reading::Short(fast),
                    Reading::Code(byte),
                ]);
            }
            return Err(e);
        },
    };
    proof {
        lemma_worked_trans(old(huffman), &code_huffman, huffman, old(input), &code_input, input);
        lemma_read_one(&code_huffman, huffman, Reading::Value(s, value));
        lemma_read_since_trans(old(huffman), &code_huffman, huffman);
        let two = seq![Reading::Short(fast), Reading::Code(byte)];
        assert(huffman.read_since(old(huffman)) =~= two + seq![Reading::Value(s, value)]);
        state.lemma_run_concat(two, seq![Reading::Value(s, value)], band);
        coded.lemma_run_one(Reading::Value(s, value), band);
    }
    coefficients[unzigzag(place)] = value << low;
    Ok(place + 1)
}

/// Decodes the first pass over one block: the DC coefficient, if the band
/// opens with it, as the difference to `dc_predictor`, and the AC
/// coefficients of the band as runs of zeros and values. All values are
/// scaled by `2^successive_approximation_low`. A block within an
/// end-of-band run takes its DC coefficient only.
///
/// What the block becomes is what `BlockState` makes of the readings that
/// `huffman` takes off the bits. The readings are drawn in turn, with the
/// table that is due, and within the pass: none is taken once the block
/// is done. The error that stops the pass is the error of the phase that
/// it had come to. Behind a marker no byte is taken off the stream.
pub fn decode_block(
    input: &mut InputStream,
    coefficients: &mut [i16],
    huffman: &mut HuffmanDecoder,
    dc_table: Option<&HuffmanTable>,
    ac_table: Option<&HuffmanTable>,
    spectral_selection_start: u8,
    spectral_selection_end: u8,
    successive_approximation_low: u8,
    eob_run: &mut u16,
    dc_predictor: &mut i16,
) -> (r: JpegResult<()>)
    requires
        old(coefficients)@.len() == 64,
        old(huffman).wf(),
        old(input).wf(),
        spectral_selection_start <= spectral_selection_end <= 63,
        successive_approximation_low <= 13,
        spectral_selection_start == 0 ==> table_ready(dc_table),
        spectral_selection_end > 0 ==> table_ready(ac_table),
    ensures
        final(huffman).worked(old(huffman), old(input), final(input)),
        old(huffman).readings().is_prefix_of(final(huffman).readings()),
        r matches Err(e) ==> is_starved_or_faulty(e, final(huffman)),
        final(coefficients)@.len() == 64,
        ({
            let band = Band {
                start: spectral_selection_start,
                end: spectral_selection_end,
                low: successive_approximation_low,
            };
            let outcome = BlockState::start(
                old(coefficients)@,
                *old(eob_run),
                *old(dc_predictor),
                band,
            ).run(final(huffman).read_since(old(huffman)), band);
            &&& final(coefficients)@ == outcome.block
            &&& *final(eob_run) == outcome.eob_run
            &&& *final(dc_predictor) == outcome.dc_predictor
            &&& answers(r, outcome)
            &&& r matches Err(e) ==> stopped(
                e,
                outcome.phase,
                final(huffman),
                final(input),
                owned(dc_table),
                owned(ac_table),
            )
            &&& read_within(
                BlockState::start(old(coefficients)@, *old(eob_run), *old(dc_predictor), band),
                final(huffman).read_since(old(huffman)),
                band,
            )
            &&& outcome.phase is Fault ==> faulted(
                BlockState::start(old(coefficients)@, *old(eob_run), *old(dc_predictor), band),
                final(huffman).read_since(old(huffman)),
                band,
            )
        }),
        drawn_in_turn(
            old(huffman),
            final(huffman),
            if spectral_selection_start == 0 {
                owned(dc_table)
            } else {
                owned(ac_table)
            },
            owned(ac_table),
        ),
        r is Ok ==> settled(old(huffman), final(huffman)),
        marker_kept(old(huffman), final(huffman), old(input), final(input)),
        spectral_selection_start > 0 && *old(eob_run) > 0 ==> r is Ok && final(input).same_as(
            old(input),
        ) && final(huffman).state() == old(huffman).state() && final(huffman).readings() == old(huffman).readings(),
{
    let ghost band = Band {
        start: spectral_selection_start,
        end: spectral_selection_end,
        low: successive_approximation_low,
    };
    let ghost begin = BlockState::start(coefficients@, *eob_run, *dc_predictor, band);
    proof {
        lemma_worked_refl(huffman, input);
        lemma_read_nothing(old(huffman), huffman);
        begin.lemma_run_none(band);
    }
    if spectral_selection_start == 0 {
        match decode_dc(
            input,
            coefficients,
            huffman,
            dc_table.unwrap(),
            successive_approximation_low,
            dc_predictor,
            Ghost(begin),
            Ghost(band),
        ) {
            Ok(_) => {},
            Err(e) => {
                proof {
                    let readings = huffman.read_since(old(huffman));
                    if begin.run(readings, band).phase is Fault {
                        assert(readings.drop_last() =~= Seq::<Reading>::empty());
                        begin.lemma_read_within(readings, band);
                    } else {
                        begin.lemma_sound_within(readings, band);
                    }
                }
                return Err(e);
            },
        }
    }
    let mut index: u8 = if spectral_selection_start > 1 {
        spectral_selection_start
    } else {
        1
    };
    if *eob_run > 0 {
        *eob_run -= 1;
        proof {
            begin.lemma_sound_within(huffman.read_since(old(huffman)), band);
        }
        return Ok(());
    }
    while index <= spectral_selection_end
        invariant
            1 <= index <= spectral_selection_end + 17,
            spectral_selection_start <= spectral_selection_end <= 63,
            successive_approximation_low <= 13,
            band == (Band {
                start: spectral_selection_start,
                end: spectral_selection_end,
                low: successive_approximation_low,
            }),
            coefficients@.len() == 64,
            huffman.worked(old(huffman), old(input), input),
            old(huffman).readings().is_prefix_of(huffman.readings()),
            spectral_selection_end > 0 ==> table_ready(ac_table),
            begin == BlockState::start(
                old(coefficients)@,
                *old(eob_run),
                *old(dc_predictor),
                band,
            ),
            begin.run(huffman.read_since(old(huffman)), band) == (BlockState {
                phase: if index > spectral_selection_end {
                    Phase::Done
                } else {
                    Phase::Ac(index)
                },
                block: coefficients@,
                eob_run: *eob_run,
                dc_predictor: *dc_predictor,
            }),
            marker_kept(old(huffman), huffman, old(input), input),
            *old(eob_run) == 0,
            drawn_in_turn(
                old(huffman),
                huffman,
                if spectral_selection_start == 0 {
                    owned(dc_table)
                } else {
                    owned(ac_table)
                },
                owned(ac_table),
            ),
            settled(old(huffman), huffman),
            spectral_selection_start == 0 ==> huffman.draws().len() > old(huffman).draws().len(),
        decreases spectral_selection_end + 17 - index,
    {
        let ghost state = begin.run(huffman.read_since(old(huffman)), band);
        let ghost before_huffman = *huffman;
        let ghost before_input = *input;
        let next = decode_ac(
            input,
            coefficients,
            huffman,
            ac_table.unwrap(),
            index,
            spectral_selection_end,
            successive_approximation_low,
            eob_run,
            Ghost(state),
            Ghost(band),
        );
        proof {
            lemma_worked_trans(
                old(huffman),
                &before_huffman,
                huffman,
                old(input),
                &before_input,
                input,
            );
            lemma_read_since_trans(old(huffman), &before_huffman, huffman);
            begin.lemma_run_concat(
                before_huffman.read_since(old(huffman)),
                huffman.read_since(&before_huffman),
                band,
            );
            assert(huffman.read_since(old(huffman)) == before_huffman.read_since(old(huffman))
                + huffman.read_since(&before_huffman));
            assert(begin.run(huffman.read_since(old(huffman)), band) == state.run(
                huffman.read_since(&before_huffman),
                band,
            ));
            lemma_drawn_trans(
                old(huffman),
                &before_huffman,
                huffman,
                if spectral_selection_start == 0 {
                    owned(dc_table)
                } else {
                    owned(ac_table)
                },
                owned(ac_table),
            );
        }
        match next {
            Ok(next) => {
                index = next;
            },
            Err(e) => {
                proof {
                    begin.lemma_sound_within(huffman.read_since(old(huffman)), band);
                }
                return Err(e);
            },
        }
    }
    proof {
        begin.lemma_sound_within(huffman.read_since(old(huffman)), band);
    }
    Ok(())
}

/// What a later pass over a block takes next.
pub enum RefinePhase {
    /// The bit of the DC coefficient.
    Dc,
    /// The code of a run and a size; the run starts at this place of the
    /// file.
    Code(u8),
    /// The bits that say how far the end-of-band run of this order goes;
    /// the band is at this place.
    EobBits(u8, u8),
    /// The sign of a coefficient that becomes non-zero behind a run of so
    /// many zeros; the run starts at this place.
    Sign(u8, u8),
    /// The bit of the non-zero coefficient at place `at`, on the way over
    /// `zrl` more zeros to the place of `value`.
    Bit { at: u8, zrl: u8, value: i16 },
    /// Nothing: the block is done.
    Done,
    /// Nothing: a code had a size of more than one bit.
    Fault,
}

/// A later pass over a block while it is under way.
pub struct RefineState {
    pub phase: RefinePhase,
    pub block: Seq<i16>,
    pub eob_run: u16,
}

/// The bit that a pass at bit position `low` adds.
pub open spec fn bit_of(low: u8) -> i16 {
    pow2(low as nat) as i16
}

/// A non-zero coefficient after it took the bit `one`: a coefficient that
/// lacks the bit of the pass moves away from zero by it if `one` is 1.
pub open spec fn refined_by(coefficient: i16, one: u16, bit: i16) -> i16 {
    if one == 1 && coefficient & bit == 0 {
        if coefficient > 0 {
            wrap_i16(coefficient + bit) as i16
        } else {
            wrap_i16(coefficient - bit) as i16
        }
    } else {
        coefficient
    }
}

impl RefineState {
    /// The pass with the phase changed.
    pub open spec fn to(self, phase: RefinePhase) -> RefineState {
        RefineState { phase, ..self }
    }

    /// The pass as it goes on at place `index` of the file: it is done
    /// behind the band.
    pub open spec fn at(self, index: int, band: Band) -> RefineState {
        self.to(
            if index > band.end {
                RefinePhase::Done
            } else {
                RefinePhase::Code(index as u8)
            },
        )
    }

    /// The pass with `value` at place `index` of the file, if `value` is
    /// not zero.
    pub open spec fn place(self, index: int, value: i16) -> RefineState {
        if value != 0 {
            RefineState { block: self.block.update(unzigzag_table()[index] as int, value), ..self }
        } else {
            self
        }
    }

    /// The pass as it walks on from place `index`: it passes over `zrl`
    /// zero coefficients and puts `value` into the next one; at a non-zero
    /// coefficient it stops for the bit of that coefficient. At the end of
    /// the band the walk ends, and `value` goes to the last place of the
    /// band.
    pub open spec fn settle(self, index: int, zrl: int, value: i16, band: Band) -> RefineState
        decreases band.end + 1 - index,
    {
        if index > band.end {
            self.place(band.end as int, value).to(RefinePhase::Done)
        } else if index < 0 {
            self.to(RefinePhase::Fault)
        } else if self.block[unzigzag_table()[index] as int] == 0 {
            if zrl == 0 {
                self.place(index, value).at(index + 1, band)
            } else {
                self.settle(index + 1, zrl - 1, value, band)
            }
        } else {
            self.to(RefinePhase::Bit { at: index as u8, zrl: zrl as u8, value })
        }
    }

    /// The pass as it starts: with the bit of the DC coefficient, or within
    /// an end-of-band run with a walk over the whole band, or with the
    /// first code of the band.
    pub open spec fn start(block: Seq<i16>, eob_run: u16, band: Band) -> RefineState {
        let state = RefineState { phase: RefinePhase::Dc, block, eob_run };
        if band.start == 0 {
            state
        } else if eob_run > 0 {
            RefineState { eob_run: (eob_run - 1) as u16, ..state }.settle(
                band.start as int,
                64,
                0,
                band,
            )
        } else {
            state.at(band.start as int, band)
        }
    }

    /// The pass after it took `reading`.
    pub open spec fn step(self, reading: Reading, band: Band) -> RefineState {
        let bit = bit_of(band.low);
        match (self.phase, reading) {
            (RefinePhase::Dc, Reading::Bits(count, one)) => if count == 1 {
                RefineState {
                    phase: RefinePhase::Done,
                    block: if one == 1 {
                        self.block.update(0, self.block[0] | bit)
                    } else {
                        self.block
                    },
                    ..self
                }
            } else {
                self.to(RefinePhase::Fault)
            },
            (RefinePhase::Code(index), Reading::Code(byte)) => {
                let run = byte / 16;
                let size = byte % 16;
                if size == 0 {
                    if run == 15 {
                        self.settle(index as int, 15, 0, band)
                    } else if run == 0 {
                        RefineState { eob_run: 0, ..self }.settle(index as int, 64, 0, band)
                    } else {
                        self.to(RefinePhase::EobBits(index, run))
                    }
                } else if size == 1 {
                    self.to(RefinePhase::Sign(index, run))
                } else {
                    self.to(RefinePhase::Fault)
                }
            },
            (RefinePhase::EobBits(index, order), Reading::Bits(count, more)) => if count == order {
                RefineState { eob_run: (pow2(order as nat) - 1 + more) as u16, ..self }.settle(
                    index as int,
                    64,
                    0,
                    band,
                )
            } else {
                self.to(RefinePhase::Fault)
            },
            (RefinePhase::Sign(index, run), Reading::Bits(count, one)) => if count == 1 {
                self.settle(
                    index as int,
                    run as int,
                    if one == 1 {
                        bit
                    } else {
                        (-bit) as i16
                    },
                    band,
                )
            } else {
                self.to(RefinePhase::Fault)
            },
            (RefinePhase::Bit { at, zrl, value }, Reading::Bits(count, one)) => if count == 1 {
                let place = unzigzag_table()[at as int] as int;
                RefineState {
                    block: self.block.update(place, refined_by(self.block[place], one, bit)),
                    ..self
                }.settle(at + 1, zrl as int, value, band)
            } else {
                self.to(RefinePhase::Fault)
            },
            _ => self.to(RefinePhase::Fault),
        }
    }

    /// The pass after it took `readings` one by one.
    pub open spec fn run(self, readings: Seq<Reading>, band: Band) -> RefineState
        decreases readings.len(),
    {
        if readings.len() == 0 {
            self
        } else {
            self.run(readings.drop_last(), band).step(readings.last(), band)
        }
    }

    /// Readings taken in two goes are taken one by one.
    pub proof fn lemma_run_concat(self, first: Seq<Reading>, second: Seq<Reading>, band: Band)
        ensures
            self.run(first + second, band) == self.run(first, band).run(second, band),
        decreases second.len(),
    {
        if second.len() == 0 {
            assert(first + second =~= first);
        } else {
            self.lemma_run_concat(first, second.drop_last(), band);
            assert((first + second).drop_last() =~= first + second.drop_last());
        }
    }

    /// The pass after no reading.
    pub proof fn lemma_run_none(self, band: Band)
        ensures
            self.run(Seq::<Reading>::empty(), band) == self,
    {
    }

    /// The pass after one reading.
    pub proof fn lemma_run_one(self, a: Reading, band: Band)
        ensures
            self.run(seq![a], band) == self.step(a, band),
    {
        assert(seq![a].drop_last() =~= Seq::<Reading>::empty());
        reveal_with_fuel(RefineState::run, 2);
    }

    /// Where a walk leads does not hang on the phase that it starts from.
    pub proof fn lemma_settle_from_any_phase(
        self,
        other: RefineState,
        index: int,
        zrl: int,
        value: i16,
        band: Band,
    )
        requires
            self.block == other.block,
            self.eob_run == other.eob_run,
        ensures
            self.settle(index, zrl, value, band) == other.settle(index, zrl, value, band),
        decreases band.end + 1 - index,
    {
        if 0 <= index <= band.end && self.block[unzigzag_table()[index] as int] == 0 && zrl != 0 {
            self.lemma_settle_from_any_phase(other, index + 1, zrl - 1, value, band);
        }
    }
}

/// Whether the reading is a code of a coefficient of more than one bit,
/// which a later pass has none of.
pub open spec fn over_size(reading: Reading) -> bool {
    reading matches Reading::Code(byte) && byte % 16 > 1
}

/// Whether the readings `readings` have led the later pass that starts as
/// `start` to a fault by nothing but such a code, taken where a code was
/// due.
pub open spec fn refine_faulted(start: RefineState, readings: Seq<Reading>, band: Band) -> bool {
    &&& readings.len() > 0
    &&& start.run(readings.drop_last(), band).phase is Code
    &&& over_size(readings.last())
}

/// Whether the later pass has ended.
pub open spec fn refine_is_over(phase: RefinePhase) -> bool {
    phase is Done || phase is Fault
}

/// Whether the readings `readings` are read within the later pass that
/// starts as `start`: the pass has not ended before the last of them.
pub open spec fn refine_read_within(start: RefineState, readings: Seq<Reading>, band: Band) -> bool {
    forall|k: int|
        0 <= k < readings.len() ==> !refine_is_over(
            #[trigger] start.run(readings.take(k), band).phase,
        )
}

/// Whether `e` is the error that stops a later pass over a block in the
/// phase `phase` and leaves the decoder as `huffman`. Where the pass was to
/// take a code, the next bits spell none of the table, or the decoder lacks
/// bits; where it was to take bits, the decoder lacks them.
pub open spec fn refine_stopped(
    e: JpegError,
    phase: RefinePhase,
    huffman: &HuffmanDecoder,
    input: &InputStream,
    ac_table: Option<HuffmanTable>,
) -> bool {
    match phase {
        RefinePhase::Code(_) => lacking(e, huffman, input) || code_missing(e, huffman, ac_table),
        RefinePhase::Fault => e.is_malformatted("unexpected huffman code"@),
        RefinePhase::Done => false,
        _ => lacking(e, huffman, input),
    }
}

impl RefineState {
    /// A pass that has ended and still takes a reading is at fault.
    pub proof fn lemma_over_stays(self, readings: Seq<Reading>, band: Band)
        requires
            refine_is_over(self.phase),
            readings.len() > 0,
        ensures
            self.run(readings, band).phase is Fault,
        decreases readings.len(),
    {
        if readings.len() > 1 {
            self.lemma_over_stays(readings.drop_last(), band);
        } else {
            reveal_with_fuel(RefineState::run, 2);
            assert(readings.drop_last() =~= Seq::<Reading>::empty());
        }
    }

    /// Readings are read within the pass if the pass had not ended before
    /// the last of them.
    pub proof fn lemma_read_within(self, readings: Seq<Reading>, band: Band)
        requires
            readings.len() > 0 ==> !refine_is_over(self.run(readings.drop_last(), band).phase),
        ensures
            refine_read_within(self, readings, band),
    {
        assert forall|k: int| 0 <= k < readings.len() implies !refine_is_over(
            #[trigger] self.run(readings.take(k), band).phase,
        ) by {
            let head = readings.take(k);
            if k < readings.len() - 1 {
                let rest = readings.subrange(k, readings.len() - 1);
                assert(readings.drop_last() =~= head + rest);
                self.lemma_run_concat(head, rest, band);
                if refine_is_over(self.run(head, band).phase) {
                    self.run(head, band).lemma_over_stays(rest, band);
                }
            } else {
                assert(head =~= readings.drop_last());
            }
        }
    }

    /// Readings that leave the pass without a fault are read within it.
    pub proof fn lemma_sound_within(self, readings: Seq<Reading>, band: Band)
        requires
            !(self.run(readings, band).phase is Fault),
        ensures
            refine_read_within(self, readings, band),
    {
        if readings.len() > 0 {
            let before = self.run(readings.drop_last(), band);
            if refine_is_over(before.phase) {
                before.lemma_over_stays(seq![readings.last()], band);
                before.lemma_run_one(readings.last(), band);
            }
        }
        self.lemma_read_within(readings, band);
    }
}

/// Whether `r` is the answer that a later pass over a block owes when it
/// has come to `outcome`: success when the block is done, the fault of the
/// code, or else whatever stopped the reading of the bits.
pub open spec fn refine_answers(r: JpegResult<()>, outcome: RefineState) -> bool {
    match r {
        Ok(_) => outcome.phase is Done,
        Err(e) => if outcome.phase is Fault {
            e.is_malformatted("unexpected huffman code"@)
        } else {
            &&& !(outcome.phase is Done)
            &&& {
                ||| e is EOF
                ||| e.is_malformatted("stream is too long"@)
                ||| e.is_malformatted("failed to decode huffman code"@)
            }
        },
    }
}

/// Walks the band from `start` to `end` and refines its non-zero
/// coefficients: each takes one bit from the stream, and if the bit is 1 and
/// the coefficient lacks `bit`, it moves away from zero by `bit`. The walk
/// stops at the zero coefficient that `zrl` zero coefficients come before,
/// and gives its place in the band; if there is none, it gives `end`. A
/// walk that meets no non-zero coefficient takes no bit.
fn refine_non_zeroes(
    input: &mut InputStream,
    coefficients: &mut [i16],
    huffman: &mut HuffmanDecoder,
    start: u8,
    end: u8,
    zrl: u8,
    bit: i16,
    Ghost(state): Ghost<RefineState>,
    Ghost(value): Ghost<i16>,
    Ghost(band): Ghost<Band>,
) -> (r: JpegResult<u8>)
    requires
        old(coefficients)@.len() == 64,
        old(huffman).wf(),
        old(input).wf(),
        start <= end <= 63,
        zrl <= 64,
        band.end == end,
        band.low <= 13,
        bit == bit_of(band.low),
        bit > 0,
        state.block == old(coefficients)@,
    ensures
        final(huffman).worked(old(huffman), old(input), final(input)),
        old(huffman).readings().is_prefix_of(final(huffman).readings()),
        r matches Err(e) ==> is_starved_or_faulty(e, final(huffman)),
        marker_kept(old(huffman), final(huffman), old(input), final(input)),
        r matches Err(e) ==> lacking(e, final(huffman), final(input)),
        forall|first: Option<HuffmanTable>, ac_table: Option<HuffmanTable>| #[trigger]
            drawn_in_turn(old(huffman), final(huffman), first, ac_table),
        r is Ok ==> settled(old(huffman), final(huffman)),
        !(state.settle(start as int, zrl as int, value, band).phase is Bit) ==> final(huffman).readings() == old(huffman).readings() && final(huffman).state() == old(huffman).state()
            && final(input).same_as(old(input)),
        final(coefficients)@.len() == 64,
        ({
            let outcome = state.settle(start as int, zrl as int, value, band).run(
                final(huffman).read_since(old(huffman)),
                band,
            );
            match r {
                Ok(found) => {
                    &&& start <= found <= end
                    &&& zrl > end - start ==> found == end
                    &&& outcome == (RefineState { block: final(coefficients)@, ..state }).place(
                        found as int,
                        value,
                    ).at(found + 1, band)
                },
                Err(e) => {
                    &&& outcome.phase is Bit
                    &&& outcome.block == final(coefficients)@
                    &&& outcome.eob_run == state.eob_run
                    &&& e is EOF || e.is_malformatted("stream is too long"@)
                },
            }
        }),
{
    let ghost begin = state.settle(start as int, zrl as int, value, band);
    proof {
        lemma_worked_refl(huffman, input);
        lemma_read_nothing(old(huffman), huffman);
        begin.lemma_run_none(band);
    }
    let mut zero_run_length = zrl;
    let mut i = start;
    while i <= end
        invariant
            start <= i <= end + 1,
            end <= 63,
            zero_run_length <= 64,
            zero_run_length + (i - start) >= zrl,
            band.end == end,
            band.low <= 13,
            bit == bit_of(band.low),
            bit > 0,
            coefficients@.len() == 64,
            huffman.worked(old(huffman), old(input), input),
            old(huffman).readings().is_prefix_of(huffman.readings()),
            begin == state.settle(start as int, zrl as int, value, band),
            begin.run(huffman.read_since(old(huffman)), band) == (RefineState {
                block: coefficients@,
                ..state
            }).settle(i as int, zero_run_length as int, value, band),
            marker_kept(old(huffman), huffman, old(input), input),
            huffman.read_since(old(huffman)).len() > 0 ==> begin.phase is Bit,
            forall|first: Option<HuffmanTable>, ac_table: Option<HuffmanTable>| #[trigger]
                drawn_in_turn(old(huffman), huffman, first, ac_table),
            settled(old(huffman), huffman),
            huffman.read_since(old(huffman)).len() == 0 ==> huffman.state() == old(huffman).state() && input.same_as(old(input)),
        decreases end + 1 - i,
    {
        let ghost current = RefineState { block: coefficients@, ..state };
        let ghost before_huffman = *huffman;
        let ghost before_input = *input;
        let index = unzigzag(i);
        if coefficients[index] == 0 {
            if zero_run_length == 0 {
                return Ok(i);
            }
            proof {
                assert(current.settle(i as int, zero_run_length as int, value, band)
                    == current.settle(i + 1, zero_run_length - 1, value, band));
            }
            zero_run_length -= 1;
        } else {
            proof {
                assert(current.settle(i as int, zero_run_length as int, value, band).phase == (
                RefinePhase::Bit { at: i, zrl: zero_run_length, value }));
            }
            let one = match huffman.get_bits(input, 1) {
                Ok(one) => one,
                Err(e) => {
                    proof {
                        lemma_worked_trans(
                            old(huffman),
                            &before_huffman,
                            huffman,
                            old(input),
                            &before_input,
                            input,
                        );
                        lemma_read_nothing(&before_huffman, huffman);
                        assert forall|first: Option<HuffmanTable>, ac_table: Option<HuffmanTable>| #[trigger]
                            drawn_in_turn(old(huffman), huffman, first, ac_table) by {
                            lemma_drawn_step(old(huffman), &before_huffman, huffman, first, ac_table);
                        }
                        lemma_drawn_step(old(huffman), &before_huffman, huffman, None, None);
                        lemma_read_since_trans(old(huffman), &before_huffman, huffman);
                        assert(huffman.read_since(old(huffman)) =~= before_huffman.read_since(
                            old(huffman),
                        ));
                    }
                    return Err(e);
                },
            };
            proof {
                lemma_worked_trans(
                    old(huffman),
                    &before_huffman,
                    huffman,
                    old(input),
                    &before_input,
                    input,
                );
                lemma_read_one(&before_huffman, huffman, Reading::Bits(1, one));
                assert forall|first: Option<HuffmanTable>, ac_table: Option<HuffmanTable>| #[trigger]
                    drawn_in_turn(old(huffman), huffman, first, ac_table) by {
                    lemma_drawn_step(old(huffman), &before_huffman, huffman, first, ac_table);
                }
                lemma_drawn_step(old(huffman), &before_huffman, huffman, None, None);
                lemma_read_since_trans(old(huffman), &before_huffman, huffman);
                begin.lemma_run_concat(
                    before_huffman.read_since(old(huffman)),
                    seq![Reading::Bits(1, one)],
                    band,
                );
                current.settle(i as int, zero_run_length as int, value, band).lemma_run_one(
                    Reading::Bits(1, one),
                    band,
                );
            }
            if one == 1 && coefficients[index] & bit == 0 {
                if coefficients[index] > 0 {
                    coefficients[index] = predict_dc(coefficients[index], bit);
                } else {
                    coefficients[index] = predict_dc(coefficients[index], -bit);
                }
            }
            proof {
                assert(coefficients@ =~= current.block.update(
                    index as int,
                    refined_by(current.block[index as int], one, bit),
                ));
                let stopped = current.settle(i as int, zero_run_length as int, value, band);
                assert(stopped.block == current.block);
                assert(stopped.eob_run == current.eob_run);
                assert(begin.run(huffman.read_since(old(huffman)), band) == stopped.step(
                    Reading::Bits(1, one),
                    band,
                ));
                (RefineState { block: coefficients@, ..stopped }).lemma_settle_from_any_phase(
                    RefineState { block: coefficients@, ..state },
                    i + 1,
                    zero_run_length as int,
                    value,
                    band,
                );
                assert(stopped.step(Reading::Bits(1, one), band) == (RefineState {
                    block: coefficients@,
                    ..state
                }).settle(i + 1, zero_run_length as int, value, band));
            }
        }
        i += 1;
    }
    Ok(end)
}

/// Decodes a later pass over one block, which adds the bit
/// `2^successive_approximation_low` to its coefficients. For the DC
/// coefficient the pass holds one bit. For a band of AC coefficients it
/// holds runs of zeros, each followed by a coefficient that becomes non-zero
/// in this pass, and one bit for each coefficient that was non-zero before;
/// within an end-of-band run it holds those bits only.
///
/// What the block becomes is what `RefineState` makes of the readings that
/// `huffman` takes off the bits. The readings are drawn in turn, with the
/// table of the scan, and within the pass. The error that stops the pass
/// is the error of the phase that it had come to. Behind a marker no byte
/// is taken off the stream. The bit of the DC coefficient is taken if it
/// is there.
pub fn decode_block_successive_approximation(
    input: &mut InputStream,
    coefficients: &mut [i16],
    huffman: &mut HuffmanDecoder,
    ac_table: Option<&HuffmanTable>,
    spectral_selection_start: u8,
    spectral_selection_end: u8,
    successive_approximation_low: u8,
    eob_run: &mut u16,
) -> (r: JpegResult<()>)
    requires
        old(coefficients)@.len() == 64,
        old(huffman).wf(),
        old(input).wf(),
        spectral_selection_start <= spectral_selection_end <= 63,
        successive_approximation_low <= 13,
        spectral_selection_start > 0 ==> table_ready(ac_table),
    ensures
        final(huffman).worked(old(huffman), old(input), final(input)),
        old(huffman).readings().is_prefix_of(final(huffman).readings()),
        r matches Err(e) ==> is_starved_or_faulty(e, final(huffman)),
        final(coefficients)@.len() == 64,
        ({
            let band = Band {
                start: spectral_selection_start,
                end: spectral_selection_end,
                low: successive_approximation_low,
            };
            let outcome = RefineState::start(old(coefficients)@, *old(eob_run), band).run(
                final(huffman).read_since(old(huffman)),
                band,
            );
            &&& final(coefficients)@ == outcome.block
            &&& *final(eob_run) == outcome.eob_run
            &&& refine_answers(r, outcome)
            &&& r matches Err(e) ==> refine_stopped(
                e,
                outcome.phase,
                final(huffman),
                final(input),
                owned(ac_table),
            )
            &&& refine_read_within(
                RefineState::start(old(coefficients)@, *old(eob_run), band),
                final(huffman).read_since(old(huffman)),
                band,
            )
            &&& outcome.phase is Fault ==> refine_faulted(
                RefineState::start(old(coefficients)@, *old(eob_run), band),
                final(huffman).read_since(old(huffman)),
                band,
            )
        }),
        marker_kept(old(huffman), final(huffman), old(input), final(input)),
        spectral_selection_start == 0 && old(huffman).state().serves(1) ==> r is Ok,
        drawn_in_turn(old(huffman), final(huffman), owned(ac_table), owned(ac_table)),
        r is Ok ==> settled(old(huffman), final(huffman)),
{
    let ghost band = Band {
        start: spectral_selection_start,
        end: spectral_selection_end,
        low: successive_approximation_low,
    };
    let ghost begin = RefineState::start(coefficients@, *eob_run, band);
    proof {
        lemma_worked_refl(huffman, input);
        lemma_read_nothing(old(huffman), huffman);
        begin.lemma_run_none(band);
        lemma_pow2_strictly_increases(successive_approximation_low as nat, 14);
        lemma2_to64();
    }
    let bit = two_pow(successive_approximation_low) as i16;
    if spectral_selection_start == 0 {
        let one = match huffman.get_bits(input, 1) {
            Ok(one) => one,
            Err(e) => {
                proof {
                    lemma_read_nothing(old(huffman), huffman);
                    begin.lemma_sound_within(huffman.read_since(old(huffman)), band);
                }
                return Err(e);
            },
        };
        proof {
            lemma_read_one(old(huffman), huffman, Reading::Bits(1, one));
            begin.lemma_run_one(Reading::Bits(1, one), band);
            begin.lemma_sound_within(huffman.read_since(old(huffman)), band);
        }
        if one == 1 {
            coefficients[0] = coefficients[0] | bit;
        }
        return Ok(());
    }
    if *eob_run > 0 {
        *eob_run -= 1;
        match refine_non_zeroes(
            input,
            coefficients,
            huffman,
            spectral_selection_start,
            spectral_selection_end,
            64,
            bit,
            Ghost(RefineState { phase: RefinePhase::Dc, block: coefficients@, eob_run: *eob_run }),
            Ghost(0i16),
            Ghost(band),
        ) {
            Ok(_) => {
                proof {
                    begin.lemma_sound_within(huffman.read_since(old(huffman)), band);
                }
                return Ok(());
            },
            Err(e) => {
                proof {
                    begin.lemma_sound_within(huffman.read_since(old(huffman)), band);
                }
                return Err(e);
            },
        }
    }
    let table = ac_table.unwrap();
    let mut index = spectral_selection_start;
    while index <= spectral_selection_end
        invariant
            1 <= spectral_selection_start <= index <= spectral_selection_end + 1,
            spectral_selection_end <= 63,
            bit == bit_of(band.low),
            bit > 0,
            successive_approximation_low <= 13,
            band == (Band {
                start: spectral_selection_start,
                end: spectral_selection_end,
                low: successive_approximation_low,
            }),
            table.wf(),
            coefficients@.len() == 64,
            huffman.worked(old(huffman), old(input), input),
            old(huffman).readings().is_prefix_of(huffman.readings()),
            begin == RefineState::start(old(coefficients)@, *old(eob_run), band),
            begin.run(huffman.read_since(old(huffman)), band) == (RefineState {
                phase: if index > spectral_selection_end {
                    RefinePhase::Done
                } else {
                    RefinePhase::Code(index)
                },
                block: coefficients@,
                eob_run: *eob_run,
            }),
            marker_kept(old(huffman), huffman, old(input), input),
            ac_table == Some(table),
            drawn_in_turn(old(huffman), huffman, owned(ac_table), owned(ac_table)),
            settled(old(huffman), huffman),
        decreases spectral_selection_end + 1 - index,
    {
        let ghost state = begin.run(huffman.read_since(old(huffman)), band);
        let ghost before_huffman = *huffman;
        let ghost before_input = *input;
        let found = refine_step(
            input,
            coefficients,
            huffman,
            table,
            index,
            spectral_selection_end,
            bit,
            eob_run,
            Ghost(state),
            Ghost(band),
        );
        proof {
            lemma_worked_trans(
                old(huffman),
                &before_huffman,
                huffman,
                old(input),
                &before_input,
                input,
            );
            lemma_read_since_trans(old(huffman), &before_huffman, huffman);
            begin.lemma_run_concat(
                before_huffman.read_since(old(huffman)),
                huffman.read_since(&before_huffman),
                band,
            );
            lemma_drawn_trans(
                old(huffman),
                &before_huffman,
                huffman,
                owned(ac_table),
                owned(ac_table),
            );
        }
        match found {
            Ok(found) => {
                index = found + 1;
            },
            Err(e) => {
                proof {
                    let readings = huffman.read_since(old(huffman));
                    if begin.run(readings, band).phase is Fault {
                        let step = huffman.read_since(&before_huffman);
                        assert(readings.drop_last() =~= before_huffman.read_since(old(huffman)));
                        begin.lemma_read_within(readings, band);
                    } else {
                        begin.lemma_sound_within(readings, band);
                    }
                }
                return Err(e);
            },
        }
    }
    proof {
        begin.lemma_sound_within(huffman.read_since(old(huffman)), band);
    }
    Ok(())
}

/// Decodes what a later pass over a block holds for the place `index` of
/// the file: a code, the bits that belong to it, and the walk to the place
/// that the code names. It gives that place.
#[verifier::spinoff_prover]
#[verifier::rlimit(80)]
fn refine_step(
    input: &mut InputStream,
    coefficients: &mut [i16],
    huffman: &mut HuffmanDecoder,
    table: &HuffmanTable,
    index: u8,
    end: u8,
    bit: i16,
    eob_run: &mut u16,
    Ghost(state): Ghost<RefineState>,
    Ghost(band): Ghost<Band>,
) -> (r: JpegResult<u8>)
    requires
        old(coefficients)@.len() == 64,
        old(huffman).wf(),
        old(input).wf(),
        table.wf(),
        1 <= index <= end <= 63,
        band.end == end,
        band.low <= 13,
        bit == bit_of(band.low),
        bit > 0,
        state.phase == RefinePhase::Code(index),
        state.block == old(coefficients)@,
        state.eob_run == *old(eob_run),
    ensures
        final(huffman).worked(old(huffman), old(input), final(input)),
        old(huffman).readings().is_prefix_of(final(huffman).readings()),
        r matches Err(e) ==> is_starved_or_faulty(e, final(huffman)),
        marker_kept(old(huffman), final(huffman), old(input), final(input)),
        r matches Err(e) ==> refine_stopped(
            e,
            state.run(final(huffman).read_since(old(huffman)), band).phase,
            final(huffman),
            final(input),
            Some(*table),
        ),
        state.run(final(huffman).read_since(old(huffman)), band).phase is Fault ==> final(huffman).read_since(old(huffman)).len() == 1
            && over_size(final(huffman).read_since(old(huffman))[0]),
        drawn_in_turn(old(huffman), final(huffman), Some(*table), Some(*table)),
        r is Ok ==> settled(old(huffman), final(huffman)) && final(huffman).draws().len() > old(huffman).draws().len(),
        final(coefficients)@.len() == 64,
        ({
            let outcome = state.run(final(huffman).read_since(old(huffman)), band);
            &&& final(coefficients)@ == outcome.block
            &&& *final(eob_run) == outcome.eob_run
            &&& match r {
                Ok(found) => index <= found <= end && outcome.phase == (if found + 1 > end {
                    RefinePhase::Done
                } else {
                    RefinePhase::Code((found + 1) as u8)
                }),
                Err(e) => refine_answers(Err::<(), JpegError>(e), outcome),
            }
        }),
{
    proof {
        lemma_worked_refl(huffman, input);
    }
    let byte = match huffman.decode(input, table) {
        Ok(byte) => byte,
        Err(e) => {
            proof {
                lemma_read_nothing(old(huffman), huffman);
                state.lemma_run_none(band);
                lemma_drawn_step(old(huffman), old(huffman), huffman, Some(*table), Some(*table));
            }
            return Err(e);
        },
    };
    let ghost code_huffman = *huffman;
    let ghost code_input = *input;
    let ghost coded = state.step(Reading::Code(byte), band);
    proof {
        lemma_read_one(old(huffman), huffman, Reading::Code(byte));
        state.lemma_run_one(Reading::Code(byte), band);
        lemma_drawn_step(old(huffman), old(huffman), huffman, Some(*table), Some(*table));
    }
    let r = byte / 16;
    let s = byte % 16;
    let mut zero_run_length = r;
    let mut value: i16 = 0;
    if s == 0 {
        if r != 15 {
            proof {
                lemma_pow2_strictly_increases(r as nat, 15);
                lemma2_to64();
            }
            let mut run = (two_pow(r) - 1) as u16;
            if r > 0 {
                let more = match huffman.get_bits(input, r) {
                    Ok(more) => more,
                    Err(e) => {
                        proof {
                            lemma_worked_trans(
                                old(huffman),
                                &code_huffman,
                                huffman,
                                old(input),
                                &code_input,
                                input,
                            );
                            lemma_read_nothing(&code_huffman, huffman);
                            lemma_drawn_step(old(huffman), &code_huffman, huffman, Some(*table), Some(*table));
                            lemma_read_since_trans(old(huffman), &code_huffman, huffman);
                            assert(huffman.read_since(old(huffman)) =~= seq![Reading::Code(byte)]);
                        }
                        return Err(e);
                    },
                };
                proof {
                    lemma_worked_trans(
                        old(huffman),
                        &code_huffman,
                        huffman,
                        old(input),
                        &code_input,
                        input,
                    );
                    lemma_read_one(&code_huffman, huffman, Reading::Bits(r, more));
                    lemma_drawn_step(old(huffman), &code_huffman, huffman, Some(*table), Some(*table));
                    lemma_read_since_trans(old(huffman), &code_huffman, huffman);
                    assert(huffman.read_since(old(huffman)) == seq![Reading::Code(byte)] + seq![
                        Reading::Bits(r, more),
                    ]);
                    state.lemma_run_concat(
                        seq![Reading::Code(byte)],
                        seq![Reading::Bits(r, more)],
                        band,
                    );
                    coded.lemma_run_one(Reading::Bits(r, more), band);
                }
                run = run + more;
            }
            *eob_run = run;
            // The block ends here: no zero coefficient stops the walk.
            zero_run_length = 64;
        }
    } else if s == 1 {
        let one = match huffman.get_bits(input, 1) {
            Ok(one) => one,
            Err(e) => {
                proof {
                    lemma_worked_trans(
                        old(huffman),
                        &code_huffman,
                        huffman,
                        old(input),
                        &code_input,
                        input,
                    );
                    lemma_read_nothing(&code_huffman, huffman);
                    lemma_drawn_step(old(huffman), &code_huffman, huffman, Some(*table), Some(*table));
                    lemma_read_since_trans(old(huffman), &code_huffman, huffman);
                    assert(huffman.read_since(old(huffman)) =~= seq![Reading::Code(byte)]);
                }
                return Err(e);
            },
        };
        proof {
            lemma_worked_trans(
                old(huffman),
                &code_huffman,
                huffman,
                old(input),
                &code_input,
                input,
            );
            lemma_read_one(&code_huffman, huffman, Reading::Bits(1, one));
            lemma_drawn_step(old(huffman), &code_huffman, huffman, Some(*table), Some(*table));
            lemma_read_since_trans(old(huffman), &code_huffman, huffman);
            assert(huffman.read_since(old(huffman)) == seq![Reading::Code(byte)] + seq![
                Reading::Bits(1, one),
            ]);
            state.lemma_run_concat(seq![Reading::Code(byte)], seq![Reading::Bits(1, one)], band);
            coded.lemma_run_one(Reading::Bits(1, one), band);
        }
        value = if one == 1 {
            bit
        } else {
            -bit
        };
    } else {
        return Err(JpegError::malformatted("unexpected huffman code"));
    }
    let ghost ahead = RefineState { eob_run: *eob_run, ..state };
    let ghost walk_huffman = *huffman;
    let ghost walk_input = *input;
    proof {
        let reached = state.run(huffman.read_since(old(huffman)), band);
        if s == 0 && r != 15 && r > 0 {
            (RefineState { eob_run: *eob_run, ..coded }).lemma_settle_from_any_phase(
                ahead,
                index as int,
                64,
                0,
                band,
            );
        }
        if s == 1 {
            coded.lemma_settle_from_any_phase(ahead, index as int, r as int, value, band);
        }
        assert(reached == ahead.settle(index as int, zero_run_length as int, value, band));
    }
    let found = match refine_non_zeroes(
        input,
        coefficients,
        huffman,
        index,
        end,
        zero_run_length,
        bit,
        Ghost(ahead),
        Ghost(value),
        Ghost(band),
    ) {
        Ok(found) => found,
        Err(e) => {
            proof {
                lemma_worked_trans(
                    old(huffman),
                    &walk_huffman,
                    huffman,
                    old(input),
                    &walk_input,
                    input,
                );
                lemma_read_since_trans(old(huffman), &walk_huffman, huffman);
                lemma_drawn_trans(old(huffman), &walk_huffman, huffman, Some(*table), Some(*table));
                state.lemma_run_concat(
                    walk_huffman.read_since(old(huffman)),
                    huffman.read_since(&walk_huffman),
                    band,
                );
            }
            return Err(e);
        },
    };
    proof {
        lemma_worked_trans(old(huffman), &walk_huffman, huffman, old(input), &walk_input, input);
        lemma_read_since_trans(old(huffman), &walk_huffman, huffman);
        lemma_drawn_trans(old(huffman), &walk_huffman, huffman, Some(*table), Some(*table));
        state.lemma_run_concat(
            walk_huffman.read_since(old(huffman)),
            huffman.read_since(&walk_huffman),
            band,
        );
    }
    proof {
        assert(drawn_in_turn(&walk_huffman, huffman, Some(*table), Some(*table)));
        assert(walk_huffman.draws().len() <= huffman.draws().len());
    }
    if value != 0 {
        coefficients[unzigzag(found)] = value;
    }
    Ok(found)
}

} // verus!
