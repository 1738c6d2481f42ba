//! Huffman tables and the decoder of the entropy-coded bits.
use crate::iostream::InputStream;
use crate::jpeg_decoder::error::JpegError;
use crate::jpeg_decoder::error::JpegResult;
use crate::jpeg_decoder::jpeg::ScanInfo;
use crate::jpeg_decoder::marker::Marker;
use vstd::arithmetic::power2::*;
use vstd::bits::*;
use vstd::prelude::*;

verus! {

/// The number of bits that index the lookup tables.
pub const LUT_BITS: u8 = 8;

/// The kind of coefficients that the codes of a table are for.
#[derive(Debug, Clone, Copy, PartialEq, Eq, Structural)]
pub enum HuffmanTableClass {
    DC,
    AC,
}

/// The smallest code of length `len`, for a table with `counts[l - 1]` codes
/// of each length `l`: codes are handed out in rising order, and the first
/// code of a length is twice the code after the last one of the length below.
pub open spec fn first_code(counts: Seq<u8>, len: nat) -> nat
    decreases len,
{
    if len <= 1 {
        0
    } else {
        (2 * (first_code(counts, (len - 1) as nat) + counts[len - 2])) as nat
    }
}

/// The place, among the values of the table, of the value that the first code
/// of length `len` stands for: the number of shorter codes.
pub open spec fn first_index(counts: Seq<u8>, len: nat) -> nat
    decreases len,
{
    if len <= 1 {
        0
    } else {
        (first_index(counts, (len - 1) as nat) + counts[len - 2]) as nat
    }
}

/// The number of codes of the table.
pub open spec fn code_count(counts: Seq<u8>) -> nat {
    first_index(counts, 17)
}

/// Whether the codes of every length fit into that many bits.
pub open spec fn codes_fit(counts: Seq<u8>) -> bool {
    &&& counts.len() == 16
    &&& forall|len: nat|
        1 <= len <= 16 ==> #[trigger] first_code(counts, len) + counts[len - 1] <= pow2(len)
}

/// The first `len` bits of a window of `n` bits with the value `window`.
pub open spec fn prefix(window: nat, n: nat, len: nat) -> nat {
    window / pow2((n - len) as nat)
}

/// Whether `code` is one of the codes of length `len`.
pub open spec fn is_code(counts: Seq<u8>, code: nat, len: nat) -> bool {
    first_code(counts, len) <= code < first_code(counts, len) + counts[len - 1]
}

/// The length of the code at the head of a window of `n` bits: the least
/// length from `from` to `limit` at which the head of the window is a code.
pub open spec fn code_len(counts: Seq<u8>, window: nat, n: nat, from: nat, limit: nat) -> Option<
    nat,
>
    decreases limit + 1 - from,
{
    if from > limit {
        None
    } else if is_code(counts, prefix(window, n, from), from) {
        Some(from)
    } else {
        code_len(counts, window, n, from + 1, limit)
    }
}

/// The place of the value of the code of length `len` at the head of the
/// window.
pub open spec fn value_index(counts: Seq<u8>, window: nat, n: nat, len: nat) -> int {
    first_index(counts, len) + prefix(window, n, len) - first_code(counts, len)
}

/// The value that `count` bits with the value `value` stand for: the upper
/// half of the numbers of `count` bits stand for themselves, the lower half
/// for the negative numbers from `1 - 2^count` up.
pub open spec fn extend_spec(value: nat, count: nat) -> int {
    if count == 0 {
        0
    } else if value < pow2((count - 1) as nat) {
        value - pow2(count) + 1
    } else {
        value as int
    }
}

/// `2^k`.
pub fn two_pow(k: u8) -> (p: u32)
    requires
        k <= 31,
    ensures
        p == pow2(k as nat),
        p >= 1,
{
    proof {
        lemma_u32_pow2_no_overflow(k as nat);
        lemma_u32_shl_is_mul(1u32, k as u32);
    }
    1u32 << (k as u32)
}

/// Sign extension of a magnitude of `count` bits.
pub fn extend(value: u16, count: u8) -> (r: i16)
    requires
        count <= 15,
        value < pow2(count as nat),
    ensures
        r == extend_spec(value as nat, count as nat),
{
    if count == 0 {
        return 0;
    }
    let half = two_pow(count - 1);
    let full = two_pow(count);
    proof {
        lemma_pow2_unfold(count as nat);
        lemma_pow2_strictly_increases(count as nat, 16);
        lemma2_to64();
    }
    if (value as u32) < half {
        (value as i32 - full as i32 + 1) as i16
    } else {
        value as i16
    }
}

/// The value and the length of the code at the head of a window of `n` bits,
/// looking at lengths from `from` up to 16, or up to `n` if that is less.
pub open spec fn symbol_in(counts: Seq<u8>, values: Seq<u8>, window: nat, n: nat, from: nat) -> Option<
    (u8, nat),
> {
    let limit = if n < 16 {
        n
    } else {
        16
    };
    match code_len(counts, window, n, from, limit) {
        Some(len) => Some((values[value_index(counts, window, n, len)], len)),
        None => None,
    }
}

/// One entry of the table for short codes: the value and the length of the
/// code that opens the eight bits of the index, or a length of 0 if none does.
#[derive(Debug, Clone, Copy, PartialEq, Eq, Structural)]
pub struct LutEntry {
    pub value: u8,
    pub len: u8,
}

/// One entry of the table for short AC coefficients: a coefficient whose code
/// and magnitude bits fit into the eight bits of the index, the run of zeros
/// before it, and the number of bits that both take, or 0 bits if they do not
/// fit.
#[derive(Debug, Clone, Copy, PartialEq, Eq, Structural)]
pub struct AcEntry {
    pub value: i16,
    pub run: u8,
    pub bits: u8,
}

/// A Huffman table: the codes that the counts of the segment define, their
/// values, and the lookup tables for short codes.
#[derive(Debug, Clone, PartialEq, Eq)]
pub struct HuffmanTable {
    counts: Vec<u8>,
    values: Vec<u8>,
    mincode: Vec<u32>,
    valptr: Vec<u16>,
    lut: Vec<LutEntry>,
    ac_lut: Option<Vec<AcEntry>>,
}

impl HuffmanTable {
    /// The number of codes of each length from 1 to 16.
    pub closed spec fn counts(&self) -> Seq<u8> {
        self.counts@
    }

    /// The values of the codes, in the order of the codes.
    pub closed spec fn values(&self) -> Seq<u8> {
        self.values@
    }

    /// Whether the table has the side table for short AC coefficients.
    pub closed spec fn is_ac(&self) -> bool {
        self.ac_lut is Some
    }

    /// The value and the length of the code at the head of a window of `n`
    /// bits, looking at lengths from `from` on.
    pub open spec fn symbol_from(&self, window: nat, n: nat, from: nat) -> Option<(u8, nat)> {
        symbol_in(self.counts(), self.values(), window, n, from)
    }

    /// The value and the length of the code at the head of a window of `n`
    /// bits with the value `window`, if a code of at most `n` bits is there.
    pub open spec fn symbol(&self, window: nat, n: nat) -> Option<(u8, nat)> {
        self.symbol_from(window, n, 1)
    }

    /// What the table for short codes holds for the index `i`.
    pub open spec fn lut_entry(&self, i: nat) -> LutEntry {
        lut_entry_in(self.counts(), self.values(), i)
    }

    /// What the table for short AC coefficients holds for the index `i`: the
    /// symbol at the head of the index is a run and a size; the `size` bits
    /// behind the code are the magnitude.
    pub open spec fn ac_entry(&self, i: nat) -> AcEntry {
        ac_entry_in(self.counts(), self.values(), i)
    }

    spec fn wf_codes(&self) -> bool {
        codes_ready(self.counts@, self.values@, self.mincode@, self.valptr@)
    }

    /// The table is built from counts whose codes fit, holds one value for
    /// each code, and its lookup tables hold what the codes say.
    pub closed spec fn wf(&self) -> bool {
        &&& self.wf_codes()
        &&& self.lut@.len() == 256
        &&& forall|i: nat| i < 256 ==> #[trigger] self.lut@[i as int] == self.lut_entry(i)
        &&& match self.ac_lut {
            Some(ac_lut) => {
                &&& ac_lut@.len() == 256
                &&& forall|i: nat| i < 256 ==> #[trigger] ac_lut@[i as int] == self.ac_entry(i)
            },
            None => true,
        }
    }

    /// The codes of a well-formed table fit, and it has a value for each.
    pub proof fn lemma_wf(&self)
        requires
            self.wf(),
        ensures
            codes_fit(self.counts()),
            self.values().len() == code_count(self.counts()),
    {
    }
}

/// The number of shorter codes grows with the length, and never passes the
/// number of all codes.
pub proof fn lemma_first_index_monotone(counts: Seq<u8>, a: nat, b: nat)
    requires
        a <= b,
    ensures
        first_index(counts, a) <= first_index(counts, b),
    decreases b,
{
    if a < b && b > 1 {
        lemma_first_index_monotone(counts, a, (b - 1) as nat);
    }
}

/// The value of a code stands within the values of the table.
pub proof fn lemma_value_index_in_range(counts: Seq<u8>, window: nat, n: nat, len: nat)
    requires
        counts.len() == 16,
        1 <= len <= 16,
        is_code(counts, prefix(window, n, len), len),
    ensures
        0 <= value_index(counts, window, n, len) < code_count(counts),
{
    assert(first_index(counts, len + 1) == first_index(counts, len) + counts[len - 1]);
    lemma_first_index_monotone(counts, len + 1, 17);
}

/// A code length that `code_len` finds is in range and is a code.
pub proof fn lemma_code_len_found(counts: Seq<u8>, window: nat, n: nat, from: nat, limit: nat)
    requires
        code_len(counts, window, n, from, limit) is Some,
    ensures
        from <= code_len(counts, window, n, from, limit)->0 <= limit,
        is_code(
            counts,
            prefix(window, n, code_len(counts, window, n, from, limit)->0),
            code_len(counts, window, n, from, limit)->0,
        ),
    decreases limit + 1 - from,
{
    if from <= limit && !is_code(counts, prefix(window, n, from), from) {
        lemma_code_len_found(counts, window, n, from + 1, limit);
    }
}

/// Looking for a code up to `limit` is looking up to `mid` first and from
/// there on if none was found.
pub proof fn lemma_code_len_split(
    counts: Seq<u8>,
    window: nat,
    n: nat,
    from: nat,
    mid: nat,
    limit: nat,
)
    requires
        from <= mid + 1,
        mid <= limit,
    ensures
        code_len(counts, window, n, from, limit) == match code_len(counts, window, n, from, mid) {
            Some(len) => Some(len),
            None => code_len(counts, window, n, mid + 1, limit),
        },
    decreases mid + 1 - from,
{
    if from <= mid && !is_code(counts, prefix(window, n, from), from) {
        lemma_code_len_split(counts, window, n, from + 1, mid, limit);
    }
}

/// The first `len` bits of a window are the first `len` bits of its first
/// `m` bits.
pub proof fn lemma_prefix_of_prefix(window: nat, n: nat, m: nat, len: nat)
    requires
        len <= m <= n,
    ensures
        prefix(prefix(window, n, m), m, len) == prefix(window, n, len),
{
    let a = pow2((n - m) as nat);
    let b = pow2((m - len) as nat);
    lemma_pow2_pos((n - m) as nat);
    lemma_pow2_pos((m - len) as nat);
    lemma_pow2_adds((n - m) as nat, (m - len) as nat);
    assert((n - m) + (m - len) == n - len);
    vstd::arithmetic::div_mod::lemma_div_denominator(window as int, a as int, b as int);
}

/// The code at the head of a window is the code at the head of its first `m`
/// bits, as far as lengths up to `m` go.
pub proof fn lemma_code_len_of_prefix(
    counts: Seq<u8>,
    window: nat,
    n: nat,
    m: nat,
    from: nat,
    limit: nat,
)
    requires
        limit <= m <= n,
    ensures
        code_len(counts, prefix(window, n, m), m, from, limit) == code_len(
            counts,
            window,
            n,
            from,
            limit,
        ),
    decreases limit + 1 - from,
{
    if from <= limit {
        lemma_prefix_of_prefix(window, n, m, from);
        if !is_code(counts, prefix(window, n, from), from) {
            lemma_code_len_of_prefix(counts, window, n, m, from + 1, limit);
        }
    }
}

/// The two arrays that decoding walks hold, for each length, the first code
/// and the place of its value.
spec fn codes_ready(counts: Seq<u8>, values: Seq<u8>, mincode: Seq<u32>, valptr: Seq<u16>) -> bool {
    &&& codes_fit(counts)
    &&& values.len() == code_count(counts)
    &&& mincode.len() == 16
    &&& valptr.len() == 16
    &&& forall|len: nat|
        1 <= len <= 16 ==> {
            &&& #[trigger] mincode[len - 1] == first_code(counts, len)
            &&& valptr[len - 1] == first_index(counts, len)
        }
}

/// Walks the lengths from `from` on and looks whether the head of the window
/// is a code of that length.
fn find_code(
    counts: &Vec<u8>,
    values: &Vec<u8>,
    mincode: &Vec<u32>,
    valptr: &Vec<u16>,
    window: u32,
    n: u8,
    from: u8,
) -> (r: Option<(u8, u8)>)
    requires
        codes_ready(counts@, values@, mincode@, valptr@),
        window < pow2(n as nat),
        1 <= from,
        n <= 24,
    ensures
        match r {
            Some((value, len)) => from <= len <= 16 && len <= n && symbol_in(
                counts@,
                values@,
                window as nat,
                n as nat,
                from as nat,
            ) == Some((value, len as nat)),
            None => symbol_in(counts@, values@, window as nat, n as nat, from as nat) is None,
        },
{
    let limit: u8 = if n < 16 {
        n
    } else {
        16
    };
    let mut len: u8 = from;
    while len <= limit
        invariant
            codes_ready(counts@, values@, mincode@, valptr@),
            limit <= 16,
            limit <= n <= 24,
            limit as nat == (if n < 16 {
                n as nat
            } else {
                16
            }),
            1 <= from <= len,
            len <= limit + 1 || from > limit,
            code_len(counts@, window as nat, n as nat, from as nat, limit as nat) == code_len(
                counts@,
                window as nat,
                n as nat,
                len as nat,
                limit as nat,
            ),
        decreases limit + 1 - len,
    {
        let divisor = two_pow(n - len);
        let code = window / divisor;
        let lowest = mincode[(len - 1) as usize];
        let count = counts[(len - 1) as usize] as u32;
        assert(code == prefix(window as nat, n as nat, len as nat));
        assert(lowest == first_code(counts@, len as nat));
        if code >= lowest && code - lowest < count {
            proof {
                lemma_value_index_in_range(counts@, window as nat, n as nat, len as nat);
            }
            let index = valptr[(len - 1) as usize] as usize + (code - lowest) as usize;
            return Some((values[index], len));
        }
        len += 1;
    }
    None
}

impl HuffmanTable {
    /// Builds the table of a DHT segment: `bits` holds the number of codes of
    /// each length from 1 to 16, `values` the value of each code. It fails if
    /// the codes of some length do not fit into that many bits, or if there
    /// is not one value for each code.
    pub fn new(bits: &[u8; 16], values: &[u8], class: HuffmanTableClass) -> (r: JpegResult<
        HuffmanTable,
    >)
        ensures
            match r {
                Ok(table) => {
                    &&& table.wf()
                    &&& table.counts() == bits@
                    &&& table.values() == values@
                    &&& table.is_ac() == (class == HuffmanTableClass::AC)
                    &&& codes_fit(bits@)
                    &&& values@.len() == code_count(bits@)
                },
                Err(e) => if !codes_fit(bits@) {
                    e.is_malformatted("bad huffman code length"@)
                } else {
                    &&& values@.len() != code_count(bits@)
                    &&& e.is_malformatted("huffman table with a wrong number of values"@)
                },
            },
    {
        let mut counts: Vec<u8> = Vec::new();
        let mut mincode: Vec<u32> = Vec::new();
        let mut valptr: Vec<u16> = Vec::new();
        let mut code: u32 = 0;
        let mut index: u16 = 0;
        let mut len: u8 = 1;
        while len <= 16
            invariant
                1 <= len <= 17,
                bits@.len() == 16,
                code == first_code(bits@, len as nat),
                index == first_index(bits@, len as nat),
                code <= pow2(len as nat),
                code <= 0x20000,
                index <= 255 * (len - 1),
                counts@ =~= bits@.take(len - 1),
                mincode@.len() == len - 1,
                valptr@.len() == len - 1,
                forall|l: nat|
                    1 <= l < len ==> {
                        &&& #[trigger] mincode@[l - 1] == first_code(bits@, l)
                        &&& valptr@[l - 1] == first_index(bits@, l)
                    },
                forall|l: nat|
                    1 <= l < len ==> #[trigger] first_code(bits@, l) + bits@[l - 1] <= pow2(l),
            decreases 17 - len,
        {
            let count = bits[(len - 1) as usize];
            let bound = two_pow(len);
            proof {
                lemma_pow2_unfold((len + 1) as nat);
                lemma_pow2_strictly_increases(len as nat, 17);
                lemma2_to64();
                lemma2_to64_rest();
            }
            if code + count as u32 > bound {
                assert(!codes_fit(bits@)) by {
                    assert(!(first_code(bits@, len as nat) + bits@[len - 1] <= pow2(len as nat)));
                }
                return Err(JpegError::malformatted("bad huffman code length"));
            }
            let ghost mincode_before = mincode@;
            let ghost valptr_before = valptr@;
            counts.push(count);
            mincode.push(code);
            valptr.push(index);
            proof {
                assert forall|l: nat| 1 <= l < len + 1 implies {
                    &&& #[trigger] mincode@[l - 1] == first_code(bits@, l)
                    &&& valptr@[l - 1] == first_index(bits@, l)
                } by {
                    if l < len {
                        assert(mincode@[l - 1] == mincode_before[l - 1]);
                        assert(valptr@[l - 1] == valptr_before[l - 1]);
                    }
                }
            }
            index = index + count as u16;
            code = 2 * (code + count as u32);
            len += 1;
        }
        assert(counts@ =~= bits@);
        assert(codes_fit(bits@));
        if values.len() != index as usize {
            return Err(JpegError::malformatted("huffman table with a wrong number of values"));
        }
        let values = vstd::slice::slice_to_vec(values);
        let mut lut: Vec<LutEntry> = Vec::new();
        let mut i: usize = 0;
        while i < 256
            invariant
                i <= 256,
                codes_ready(counts@, values@, mincode@, valptr@),
                lut@.len() == i,
                forall|k: nat|
                    k < i ==> #[trigger] lut@[k as int] == lut_entry_in(counts@, values@, k),
            decreases 256 - i,
        {
            proof {
                lemma2_to64();
            }
            let entry = match find_code(&counts, &values, &mincode, &valptr, i as u32, 8, 1) {
                Some((value, len)) => LutEntry { value, len },
                None => LutEntry { value: 0, len: 0 },
            };
            lut.push(entry);
            i += 1;
        }
        let ac_lut = match class {
            HuffmanTableClass::DC => None,
            HuffmanTableClass::AC => {
                let mut table: Vec<AcEntry> = Vec::new();
                let mut i: usize = 0;
                while i < 256
                    invariant
                        i <= 256,
                        codes_ready(counts@, values@, mincode@, valptr@),
                        lut@.len() == 256,
                        forall|k: nat|
                            k < 256 ==> #[trigger] lut@[k as int] == lut_entry_in(
                                counts@,
                                values@,
                                k,
                            ),
                        table@.len() == i,
                        forall|k: nat|
                            k < i ==> #[trigger] table@[k as int] == ac_entry_in(
                                counts@,
                                values@,
                                k,
                            ),
                    decreases 256 - i,
                {
                    proof {
                        if code_len(counts@, i as nat, 8, 1, 8) is Some {
                            lemma_code_len_found(counts@, i as nat, 8, 1, 8);
                        }
                    }
                    let entry = ac_entry_for(i as u8, lut[i], Ghost(counts@), Ghost(values@));
                    table.push(entry);
                    i += 1;
                }
                Some(table)
            },
        };
        let table = HuffmanTable { counts, values, mincode, valptr, lut, ac_lut };
        assert(table.wf()) by {
            assert forall|i: nat| i < 256 implies #[trigger] table.lut@[i as int]
                == table.lut_entry(i) by {
                assert(table.lut@[i as int] == lut_entry_in(table.counts@, table.values@, i));
            }
            if let Some(ac) = table.ac_lut {
                assert forall|i: nat| i < 256 implies #[trigger] ac@[i as int] == table.ac_entry(
                    i,
                ) by {
                    assert(ac@[i as int] == ac_entry_in(table.counts@, table.values@, i));
                }
            }
        }
        Ok(table)
    }

    /// The entry of the table for short codes for the next eight bits.
    pub fn lookup(&self, index: u8) -> (entry: LutEntry)
        requires
            self.wf(),
        ensures
            entry == self.lut_entry(index as nat),
    {
        self.lut[index as usize]
    }

    /// The entry of the table for short AC coefficients for the next eight
    /// bits, if the table has one.
    pub fn lookup_ac(&self, index: u8) -> (entry: Option<AcEntry>)
        requires
            self.wf(),
        ensures
            entry is Some == self.is_ac(),
            entry matches Some(found) ==> found == self.ac_entry(index as nat),
    {
        match &self.ac_lut {
            Some(table) => Some(table[index as usize]),
            None => None,
        }
    }

    /// Looks for the code at the head of a window of `n` bits among the codes
    /// of `from` bits and more, and gives its value and length.
    pub fn find(&self, window: u32, n: u8, from: u8) -> (r: Option<(u8, u8)>)
        requires
            self.wf(),
            window < pow2(n as nat),
            1 <= from,
            n <= 24,
        ensures
            match r {
                Some((value, len)) => from <= len <= 16 && len <= n && self.symbol_from(
                    window as nat,
                    n as nat,
                    from as nat,
                ) == Some((value, len as nat)),
                None => self.symbol_from(window as nat, n as nat, from as nat) is None,
            },
    {
        find_code(&self.counts, &self.values, &self.mincode, &self.valptr, window, n, from)
    }
}

/// What the table for short codes holds for the index `i`.
pub open spec fn lut_entry_in(counts: Seq<u8>, values: Seq<u8>, i: nat) -> LutEntry {
    match symbol_in(counts, values, i, 8, 1) {
        Some((value, len)) => LutEntry { value, len: len as u8 },
        None => LutEntry { value: 0, len: 0 },
    }
}

/// What the table for short AC coefficients holds for the index `i`.
pub open spec fn ac_entry_in(counts: Seq<u8>, values: Seq<u8>, i: nat) -> AcEntry {
    match symbol_in(counts, values, i, 8, 1) {
        Some((value, len)) => {
            let size = (value % 16) as nat;
            if size > 0 && len + size <= 8 {
                let magnitude = (i % pow2((8 - len) as nat)) / pow2((8 - len - size) as nat);
                AcEntry {
                    value: extend_spec(magnitude, size) as i16,
                    run: value / 16,
                    bits: (len + size) as u8,
                }
            } else {
                AcEntry { value: 0, run: 0, bits: 0 }
            }
        },
        None => AcEntry { value: 0, run: 0, bits: 0 },
    }
}

/// Works out the entry for short AC coefficients from the entry for short
/// codes of the same index.
fn ac_entry_for(i: u8, short: LutEntry, counts: Ghost<Seq<u8>>, values: Ghost<Seq<u8>>) -> (entry:
    AcEntry)
    requires
        short == lut_entry_in(counts@, values@, i as nat),
        symbol_in(counts@, values@, i as nat, 8, 1) matches Some((_, len)) ==> 1 <= len <= 8,
    ensures
        entry == ac_entry_in(counts@, values@, i as nat),
{
    let size = short.value % 16;
    let run = short.value / 16;
    if short.len > 0 && size > 0 && short.len + size <= 8 {
        let rest = two_pow(8 - short.len);
        let low = two_pow(8 - short.len - size);
        let magnitude = (i as u32 % rest) / low;
        proof {
            lemma_pow2_adds(size as nat, (8 - short.len - size) as nat);
            assert(magnitude < pow2(size as nat)) by (nonlinear_arith)
                requires
                    magnitude == (i as u32 % rest) / low,
                    (i as u32 % rest) < rest,
                    rest == pow2(size as nat) * low,
                    low > 0,
            ;
            lemma_pow2_strictly_increases(size as nat, 16);
            lemma2_to64();
        }
        AcEntry { value: extend(magnitude as u16, size), run, bits: short.len + size }
    } else {
        AcEntry { value: 0, run: 0, bits: 0 }
    }
}

/// The bit reader as a value: `window` holds the bytes shifted in, the newest
/// in its low bits; its low `num_bits` bits are the bits not yet used, the
/// next one on top; `sizes` holds for each byte of the window, the newest
/// in its low two bits, the number of bytes of the stream that it came
/// from; `marker` is the byte behind the `0xFF` of the marker that ended
/// the entropy-coded data.
pub struct BitState {
    pub window: nat,
    pub num_bits: nat,
    pub sizes: nat,
    pub marker: Option<u8>,
}

impl BitState {
    /// Whether the reader can hand out `need` bits without the stream: it
    /// holds them, or a marker has ended the data and zero bits stand in.
    pub open spec fn serves(self, need: nat) -> bool {
        self.num_bits >= need || self.marker is Some
    }

    /// Whether `e` is an error of a reader that was to hand out `need` bits
    /// and is left as `self`: the reader lacks bits, no marker has ended the
    /// data, and the stream gave no more bytes.
    pub open spec fn starved(self, e: JpegError, need: nat) -> bool {
        &&& e is EOF || e.is_malformatted("stream is too long"@)
        &&& self.num_bits < need
        &&& self.marker is None
    }

    /// A reader with no bits.
    pub open spec fn empty() -> BitState {
        BitState { window: 0, num_bits: 0, sizes: 0, marker: None }
    }

    /// The bits not yet used, as a number.
    pub open spec fn pending(self) -> nat {
        self.window % pow2(self.num_bits)
    }

    /// The reader after one more byte, which came from `size` bytes of the
    /// stream: one, or two for a stuffed `0xFF`, or none for a byte that
    /// stands in behind a marker. The window keeps its last four bytes.
    pub open spec fn push(self, byte: u8, size: nat) -> BitState {
        BitState {
            window: ((self.window % pow2(24)) * 256 + byte) as nat,
            num_bits: self.num_bits + 8,
            sizes: ((self.sizes % pow2(30)) * 4 + size) as nat,
            ..self
        }
    }

    /// The number of bytes of the stream of which the reader has used no
    /// bit yet.
    pub open spec fn unread(self) -> nat {
        raw_len(self.sizes, self.num_bits / 8)
    }

    /// The next `count` bits, as a number.
    pub open spec fn head(self, count: nat) -> nat {
        prefix(self.pending(), self.num_bits, count)
    }

    /// The reader after `count` bits were used.
    pub open spec fn drop(self, count: nat) -> BitState {
        BitState { num_bits: (self.num_bits - count) as nat, ..self }
    }

    /// The reader once it has seen that a marker follows.
    pub open spec fn marked(self, marker: Option<u8>) -> BitState {
        BitState { marker, ..self }
    }

    /// The reader after it has taken the bytes `raw` off the stream: every
    /// byte but `0xFF` is data, and `0xFF 0x00` is the data byte `0xFF`.
    /// `None` if `raw` holds anything else: a reader takes neither a marker
    /// nor the `0xFF` before it, and takes nothing once a marker has ended the
    /// data.
    pub open spec fn absorb(self, raw: Seq<u8>) -> Option<BitState>
        decreases raw.len(),
    {
        if raw.len() == 0 {
            Some(self)
        } else if self.marker is Some {
            None
        } else if raw[0] != 0xFF {
            self.push(raw[0], 1).absorb(raw.skip(1))
        } else if raw.len() >= 2 && raw[1] == 0x00 {
            self.push(0xFF, 2).absorb(raw.skip(2))
        } else {
            None
        }
    }

    /// The reader after it has made up for missing bits: once a marker has
    /// ended the data, zero bytes stand in until `need` bits are there.
    pub open spec fn pad(self, need: nat) -> BitState
        decreases
            (if self.num_bits < need {
                need - self.num_bits
            } else {
                0
            }),
    {
        if self.marker is Some && self.num_bits < need {
            self.push(0, 0).pad(need)
        } else {
            self
        }
    }

    /// The reader that is left when `raw` was taken off the stream for the
    /// sake of `need` bits and `marker` was found behind it.
    pub open spec fn filled(self, raw: Seq<u8>, marker: Option<u8>, need: nat) -> Option<BitState> {
        match self.absorb(raw) {
            Some(state) => Some(state.marked(marker).pad(need)),
            None => None,
        }
    }

    /// How many of the bytes `pending` a reader takes that is to hold
    /// `need` bits, if they are enough for it: none if it holds the bits or
    /// has seen a marker; else byte after byte, a stuffed `0xFF 0x00` as
    /// one, until the bits are there or a marker follows. `None` if the
    /// bytes end before that.
    pub open spec fn fed(self, pending: Seq<u8>, need: nat) -> Option<nat>
        decreases pending.len(),
    {
        if self.num_bits >= need || self.marker is Some {
            Some(0)
        } else if pending.len() == 0 {
            None
        } else if pending[0] != 0xFF {
            match self.push(pending[0], 1).fed(pending.skip(1), need) {
                Some(k) => Some(k + 1),
                None => None,
            }
        } else if pending.len() < 2 {
            None
        } else if pending[1] == 0x00 {
            match self.push(0xFF, 2).fed(pending.skip(2), need) {
                Some(k) => Some(k + 2),
                None => None,
            }
        } else {
            Some(0)
        }
    }

    /// A reader takes no more bytes than there are.
    pub proof fn lemma_fed_within(self, pending: Seq<u8>, need: nat)
        ensures
            self.fed(pending, need) matches Some(k) ==> k <= pending.len(),
        decreases pending.len(),
    {
        if self.num_bits >= need || self.marker is Some {
        } else if pending.len() == 0 {
        } else if pending[0] != 0xFF {
            self.push(pending[0], 1).lemma_fed_within(pending.skip(1), need);
        } else if pending.len() >= 2 && pending[1] == 0x00 {
            self.push(0xFF, 2).lemma_fed_within(pending.skip(2), need);
        }
    }

    /// A byte that came from `size` bytes of the stream adds no more than
    /// `size` to the bytes of which no bit is used.
    pub proof fn lemma_push_unread(self, byte: u8, size: nat)
        requires
            size <= 3,
        ensures
            self.push(byte, size).unread() <= self.unread() + size,
    {
        let count = self.num_bits / 8;
        let kept = self.sizes % pow2(30);
        let next = (kept * 4 + size) as nat;
        assert((self.num_bits + 8) / 8 == count + 1);
        assert(next % 4 == size && next / 4 == kept) by (nonlinear_arith)
            requires
                next == kept * 4 + size,
                size <= 3,
        ;
        lemma_raw_len_low(self.sizes, 15, count);
    }

    /// Bits that are used leave no more bytes of which none is used.
    pub proof fn lemma_drop_unread(self, count: nat)
        requires
            count <= self.num_bits,
        ensures
            self.drop(count).unread() <= self.unread(),
    {
        assert((self.num_bits - count) / 8 <= self.num_bits / 8);
        lemma_raw_len_grows(self.sizes, ((self.num_bits - count) / 8) as nat, self.num_bits / 8);
    }

    /// A stuffed zero is dropped: `0xFF 0x00` in the entropy-coded data is
    /// the one data byte `0xFF`.
    pub proof fn law_stuffed_zero(self)
        requires
            self.marker is None,
        ensures
            self.absorb(seq![0xFFu8, 0x00u8]) == Some(self.push(0xFF, 2)),
    {
        reveal_with_fuel(BitState::absorb, 3);
        let raw = seq![0xFFu8, 0x00u8];
        assert(raw.skip(2).len() == 0);
    }

    /// A marker is never data: no reader results from taking `0xFF` and a
    /// byte other than `0x00` off the stream, whatever was taken before and
    /// whatever comes behind.
    pub proof fn law_marker_diverted(self, before: Seq<u8>, marker: u8, behind: Seq<u8>)
        requires
            marker != 0x00,
            self.absorb(before) is Some,
        ensures
            self.absorb(before + seq![0xFFu8, marker] + behind) is None,
    {
        let unit = seq![0xFFu8, marker] + behind;
        assert(before + seq![0xFFu8, marker] + behind =~= before + unit);
        self.lemma_absorb_append(before, unit);
        assert(unit[0] == 0xFF && unit[1] == marker);
    }

    /// A data byte is shifted in as it is.
    pub proof fn lemma_absorb_data(self, byte: u8)
        requires
            self.marker is None,
            byte != 0xFF,
        ensures
            self.absorb(seq![byte]) == Some(self.push(byte, 1)),
    {
        reveal_with_fuel(BitState::absorb, 2);
        assert(seq![byte].skip(1).len() == 0);
    }

    /// Taking `a` and then `b` is taking `a + b`.
    pub proof fn lemma_absorb_append(self, a: Seq<u8>, b: Seq<u8>)
        requires
            self.absorb(a) is Some,
        ensures
            self.absorb(a + b) == self.absorb(a)->0.absorb(b),
        decreases a.len(),
    {
        if a.len() == 0 {
            assert(a + b =~= b);
        } else if a[0] != 0xFF {
            assert((a + b).skip(1) =~= a.skip(1) + b);
            self.push(a[0], 1).lemma_absorb_append(a.skip(1), b);
        } else {
            assert((a + b).skip(2) =~= a.skip(2) + b);
            assert((a + b)[1] == a[1]);
            self.push(0xFF, 2).lemma_absorb_append(a.skip(2), b);
        }
    }

    /// Taking bytes off the stream leaves the marker as it is: none.
    pub proof fn lemma_absorb_marker(self, raw: Seq<u8>)
        requires
            self.absorb(raw) is Some,
        ensures
            self.absorb(raw)->0.marker == self.marker,
            self.absorb(raw)->0.num_bits >= self.num_bits,
            raw.len() > 0 ==> self.marker is None,
        decreases raw.len(),
    {
        if raw.len() == 0 {
        } else if raw[0] != 0xFF {
            self.push(raw[0], 1).lemma_absorb_marker(raw.skip(1));
        } else {
            self.push(0xFF, 2).lemma_absorb_marker(raw.skip(2));
        }
    }

    /// Making up bits leaves the marker, and adds bits in steps of eight,
    /// fewer than eight more than needed.
    pub proof fn lemma_pad_bits(self, need: nat)
        ensures
            self.pad(need).num_bits >= self.num_bits,
            (self.pad(need).num_bits - self.num_bits) % 8 == 0,
            self.pad(need).num_bits > self.num_bits ==> self.pad(need).num_bits < need + 8,
            self.pad(need).marker == self.marker,
            self.marker is Some ==> self.pad(need).num_bits >= need,
            self.marker is None || self.num_bits >= need ==> self.pad(need) == self,
        decreases
            (if self.num_bits < need {
                need - self.num_bits
            } else {
                0
            }),
    {
        if self.marker is Some && self.num_bits < need {
            self.push(0, 0).lemma_pad_bits(need);
        }
    }

    /// A reader that was made up to `have` bits and gets one more zero byte
    /// is made up to `have + 8` bits.
    pub proof fn lemma_pad_step(self, have: nat)
        requires
            self.marker is Some,
            self.pad(have).num_bits == have,
            self.num_bits <= have,
        ensures
            self.pad(have + 8) == self.pad(have).push(0, 0),
        decreases
            (if self.num_bits < have {
                have - self.num_bits
            } else {
                0
            }),
    {
        if self.num_bits < have {
            self.push(0, 0).lemma_pad_bits(have);
            self.push(0, 0).lemma_pad_step(have);
        } else {
            reveal_with_fuel(BitState::pad, 2);
        }
    }

    /// A reader made up to the bits it holds is made up to any number of
    /// bits that is less by fewer than eight.
    pub proof fn lemma_pad_less(self, have: nat, need: nat)
        requires
            self.pad(have).num_bits == have,
            need <= have < need + 8,
            self.num_bits <= have,
            self.num_bits < need || self.num_bits == have,
        ensures
            self.pad(need) == self.pad(have),
        decreases
            (if self.num_bits < have {
                have - self.num_bits
            } else {
                0
            }),
    {
        if self.marker is Some && self.num_bits < have {
            self.lemma_pad_bits(have);
            self.push(0, 0).lemma_pad_bits(have);
            self.push(0, 0).lemma_pad_bits(need);
            self.push(0, 0).lemma_pad_less(have, need);
        }
    }
}

/// The decimal digit for `n`, which is at most 9.
pub open spec fn digit(n: u8) -> char {
    if n == 0 {
        '0'
    } else if n == 1 {
        '1'
    } else if n == 2 {
        '2'
    } else if n == 3 {
        '3'
    } else if n == 4 {
        '4'
    } else if n == 5 {
        '5'
    } else if n == 6 {
        '6'
    } else if n == 7 {
        '7'
    } else if n == 8 {
        '8'
    } else {
        '9'
    }
}

/// The text of the error for the restart marker `RSTfound` where
/// `RSTexpected` was due.
pub open spec fn rst_text(expected: u8, found: u8) -> Seq<char> {
    "found RST"@ + seq![digit(found)] + " where RST"@ + seq![digit(expected)] + " was expected"@
}

/// `format!`: the text of the error for a restart marker that comes out of
/// turn. `{}` writes a `u8` in decimal, which is one digit for a number up
/// to 9: the text is then `rst_text`.
#[verifier::external_body]
fn rst_mismatch_text(expected: u8, found: u8) -> (text: String)
    ensures
        expected <= 9 && found <= 9 ==> text@ == rst_text(expected, found),
{
    format!("found RST{} where RST{} was expected", found, expected)
}

/// Whether `pending` opens with `0xFF`, once or more, and then a byte that
/// is not `0xFF`, in `k` bytes.
pub open spec fn fill_run(pending: Seq<u8>, k: int) -> bool {
    &&& 2 <= k <= pending.len()
    &&& forall|i: int| 0 <= i < k - 1 ==> pending[i] == 0xFF
    &&& pending[k - 1] != 0xFF
}

/// Whether `r` is the answer to a decoder that was to take the restart
/// marker `RSTexpected` and found `code` behind `0xFF`.
pub open spec fn rst_answer(r: JpegResult<()>, expected: u8, code: u8) -> bool {
    match Marker::of(code) {
        Some(Marker::RST(n)) => if n == expected {
            r is Ok
        } else {
            r matches Err(e) && e.is_malformatted(rst_text(expected, n))
        },
        Some(_) => r matches Err(e) && e.is_malformatted(
            "found marker inside scan where RST was expected"@,
        ),
        None => r matches Err(e) && e.is_malformatted("FF 00 found where marker was expected"@),
    }
}

/// What a decoder read off the bits in one step.
pub enum Reading {
    /// The value of a Huffman code.
    Code(u8),
    /// A short AC coefficient and the run of zeros before it, or the
    /// finding that the next bits hold none.
    Short(Option<(i16, u8)>),
    /// So many bits, as a number.
    Bits(u8, u16),
    /// So many bits, as a signed value.
    Value(u8, i16),
}

/// One reading with what it was drawn from: the bit reader before it, the
/// bytes taken off the stream for its sake, the bit reader after it, and
/// the table of the code, if the reading is one of a code.
pub struct Draw {
    pub reading: Reading,
    pub before: BitState,
    pub raw: Seq<u8>,
    pub after: BitState,
    pub table: Option<HuffmanTable>,
}

impl Draw {
    /// The reader as it was when it had taken the bytes of the draw and
    /// held `need` bits.
    pub open spec fn filled(self, need: nat) -> Option<BitState> {
        self.before.filled(self.raw, self.after.marker, need)
    }

    /// Whether the reading is what the bits say: the bytes taken were
    /// entropy-coded data, the reading is what stands at the head of the
    /// bits then, and the bits of the reading are used.
    pub open spec fn sound(self) -> bool {
        match self.reading {
            Reading::Bits(count, bits) => self.table is None && (self.filled(
                count as nat,
            ) matches Some(state) && bits == state.head(count as nat) && self.after == state.drop(
                count as nat,
            )),
            Reading::Value(count, value) => self.table is None && (self.filled(
                count as nat,
            ) matches Some(state) && value == extend_spec(state.head(count as nat), count as nat)
                && self.after == state.drop(count as nat)),
            Reading::Code(value) => self.table matches Some(table) && (self.filled(
                16,
            ) matches Some(state) && state.decoded(&table) == Some((value, self.after))),
            Reading::Short(found) => self.table matches Some(table) && if table.is_ac() {
                self.filled(16) matches Some(state) && {
                    let entry = table.ac_entry(state.head(8));
                    match found {
                        Some((value, run)) => entry.bits > 0 && value == entry.value && run
                            == entry.run && self.after == state.drop(entry.bits as nat),
                        None => entry.bits == 0 && self.after == state,
                    }
                }
            } else {
                found is None && self.after == self.before && self.raw.len() == 0
            },
        }
    }
}

/// Decodes the entropy-coded bits of a scan. It takes bytes off the stream
/// as far as the bits asked for need them, and logs every byte taken. A
/// marker stays in the stream.
pub struct HuffmanDecoder {
    bits: u32,
    num_bits: u8,
    /// For each byte in `bits`, the newest in the low two bits, the number
    /// of bytes of the stream that it came from: 1, or 2 for a stuffed
    /// `0xFF`, or 0 for a byte that stands in behind a marker.
    sizes: u32,
    marker: Option<u8>,
    buffer: Vec<u8>,
    pge: Vec<u8>,
    in_pge: bool,
    readings: Ghost<Seq<Reading>>,
    draws: Ghost<Seq<Draw>>,
}

/// The number of bytes of the stream that the newest `count` bytes of the
/// window came from.
pub open spec fn raw_len(sizes: nat, count: nat) -> nat
    decreases count,
{
    if count == 0 {
        0
    } else {
        sizes % 4 + raw_len(sizes / 4, (count - 1) as nat)
    }
}

/// Fewer bytes of the window came from no more bytes of the stream.
pub proof fn lemma_raw_len_grows(sizes: nat, less: nat, more: nat)
    requires
        less <= more,
    ensures
        raw_len(sizes, less) <= raw_len(sizes, more),
    decreases more,
{
    if less > 0 {
        lemma_raw_len_grows(sizes / 4, (less - 1) as nat, (more - 1) as nat);
    }
}

/// A register that holds nothing counts no byte.
pub proof fn lemma_raw_len_zero(count: nat)
    ensures
        raw_len(0, count) == 0,
    decreases count,
{
    if count > 0 {
        lemma_raw_len_zero((count - 1) as nat);
    }
}

/// A register cut down to its newest `k` entries counts no more bytes.
pub proof fn lemma_raw_len_low(sizes: nat, k: nat, count: nat)
    ensures
        raw_len(sizes % pow2(2 * k), count) <= raw_len(sizes, count),
    decreases count,
{
    lemma_pow2_pos(2 * k);
    let low = (sizes % pow2(2 * k)) as nat;
    if count > 0 {
        let fewer = (count - 1) as nat;
        assert(raw_len(low, count) == low % 4 + raw_len(low / 4, fewer));
        assert(raw_len(sizes, count) == sizes % 4 + raw_len(sizes / 4, fewer));
        if k == 0 {
            lemma2_to64();
            assert(pow2(2 * k) == 1);
            assert(low == 0);
            lemma_raw_len_zero(count);
        } else {
            let less = (k - 1) as nat;
            let rest = pow2(2 * less);
            lemma_pow2_adds(2, 2 * less);
            lemma2_to64();
            lemma_pow2_pos(2 * less);
            assert(2 + 2 * less == 2 * k);
            assert(pow2(2 * k) == 4 * rest);
            vstd::arithmetic::div_mod::lemma_mod_breakdown(sizes as int, 4, rest as int);
            let inner = ((sizes / 4) % rest) as nat;
            assert(low == 4 * inner + sizes % 4);
            assert(low % 4 == sizes % 4 && low / 4 == inner) by (nonlinear_arith)
                requires
                    low == 4 * inner + sizes % 4,
                    0 <= sizes % 4 < 4,
            ;
            lemma_raw_len_low(sizes / 4, less, fewer);
        }
    }
}

/// Whether the reader holds no byte that a bit reader could use: none at
/// all, or a lone `0xFF`, which may open a marker.
pub open spec fn drained(input: &InputStream) -> bool {
    let pending = input.pending();
    pending.len() == 0 || (pending.len() == 1 && pending[0] == 0xFF)
}

/// Whether the bytes that the reader `input` holds are enough for a bit
/// reader in the state `state` that is to hold `need` bits, and the count
/// of the bytes of the stream has room for them.
pub open spec fn can_feed(state: BitState, input: &InputStream, need: nat) -> bool {
    state.fed(input.pending(), need) matches Some(k) && input.processed() + k <= usize::MAX
}

/// Whether the reader `post` is the reader `pre` after a bit reader in the
/// state `state` took the bytes that it needed for `need` bits from those
/// that `pre` held, and no others.
pub open spec fn fed_to(state: BitState, pre: &InputStream, post: &InputStream, need: nat) -> bool {
    let k = state.fed(pre.pending(), need)->0 as int;
    &&& taken(pre, post) == pre.pending().take(k)
    &&& pre.pending().skip(k).is_prefix_of(post.pending())
}

/// Whether `e`, if it is an error of reading the stream `input`, has its
/// cause: the end of the stream is met only when the reader holds nothing
/// usable, and the stream is too long only when the count of its bytes
/// has come to `usize::MAX`.
pub open spec fn met_the_end(e: JpegError, input: &InputStream) -> bool {
    &&& e is EOF ==> drained(input)
    &&& e.is_malformatted("stream is too long"@) ==> input.processed() == usize::MAX
}

/// The bytes that `post` has consumed and `pre` had not.
pub open spec fn taken(pre: &InputStream, post: &InputStream) -> Seq<u8> {
    post.consumed().skip(pre.consumed().len() as int)
}

/// `post` is `pre` after some consuming reads that retained nothing.
pub open spec fn advanced(pre: &InputStream, post: &InputStream) -> bool {
    &&& post.wf()
    &&& pre.consumed().is_prefix_of(post.consumed())
    &&& post.counted_from() == pre.counted_from()
    &&& post.retained() == pre.retained()
}

impl HuffmanDecoder {
    /// The bit reader.
    pub closed spec fn state(&self) -> BitState {
        BitState {
            window: self.bits as nat,
            num_bits: self.num_bits as nat,
            sizes: self.sizes as nat,
            marker: self.marker,
        }
    }

    /// The bytes taken off the stream since the log was last cleared.
    pub closed spec fn buffer(&self) -> Seq<u8> {
        self.buffer@
    }

    /// The bytes taken off the stream while they counted as garbage ahead of
    /// the entropy-coded data.
    pub closed spec fn pge(&self) -> Seq<u8> {
        self.pge@
    }

    /// Whether bytes taken off the stream still count as such garbage.
    pub closed spec fn in_pge(&self) -> bool {
        self.in_pge
    }

    /// The number of bytes taken off the stream of which no bit is used
    /// yet.
    pub open spec fn unread(&self) -> nat {
        self.state().unread()
    }

    /// The bytes at the end of the log of which no bit is used yet: they are
    /// carried over when the log is cleared.
    pub open spec fn carried(&self) -> Seq<u8> {
        if self.unread() < self.buffer().len() {
            self.buffer().skip(self.buffer().len() - self.unread())
        } else {
            self.buffer()
        }
    }

    /// The decoder holds at most 31 bits, and the byte of a marker is not
    /// zero. Every reading has its draw, and the draw is sound.
    pub closed spec fn wf(&self) -> bool {
        &&& self.num_bits <= 31
        &&& self.marker matches Some(m) ==> m != 0x00
        &&& self.draws@.len() == self.readings@.len()
        &&& forall|i: int|
            0 <= i < self.draws@.len() ==> (#[trigger] self.draws@[i]).reading
                == self.readings@[i] && self.draws@[i].sound()
    }

    /// Everything that the decoder has read off the bits, step by step.
    pub closed spec fn readings(&self) -> Seq<Reading> {
        self.readings@
    }

    /// The readings with what each was drawn from.
    pub closed spec fn draws(&self) -> Seq<Draw> {
        self.draws@
    }

    /// Every reading of a decoder has its draw, and every draw is sound:
    /// what the decoder has read is what the bits said.
    pub proof fn law_every_reading_is_drawn(&self)
        requires
            self.wf(),
        ensures
            self.draws().len() == self.readings().len(),
            forall|i: int|
                0 <= i < self.draws().len() ==> (#[trigger] self.draws()[i]).reading
                    == self.readings()[i] && self.draws()[i].sound(),
    {
    }

    /// What `self` has read off the bits and `pre` had not.
    pub open spec fn read_since(&self, pre: &HuffmanDecoder) -> Seq<Reading> {
        self.readings().skip(pre.readings().len() as int)
    }

    /// `self` is `pre` with the bytes `raw` logged.
    pub open spec fn logged(&self, pre: &HuffmanDecoder, raw: Seq<u8>) -> bool {
        &&& self.wf()
        &&& self.buffer() == pre.buffer() + raw
        &&& self.in_pge() == pre.in_pge()
        &&& self.pge() == if pre.in_pge() {
            pre.pge() + raw
        } else {
            pre.pge()
        }
    }

    /// `self` is `pre` with the bytes `raw` logged and nothing read off the
    /// bits.
    pub open spec fn logs(&self, pre: &HuffmanDecoder, raw: Seq<u8>) -> bool {
        &&& self.logged(pre, raw)
        &&& self.readings() == pre.readings()
        &&& self.draws() == pre.draws()
    }

    /// `self` is `pre` after it has worked on the stream `pre_input` and left
    /// it as `post_input`: the stream has advanced, and the bytes taken off
    /// it are logged. The decoder has read the stream no further ahead than
    /// by the bytes taken: the bytes of which it has used a bit are no
    /// fewer than before.
    pub open spec fn worked(
        &self,
        pre: &HuffmanDecoder,
        pre_input: &InputStream,
        post_input: &InputStream,
    ) -> bool {
        &&& advanced(pre_input, post_input)
        &&& self.logged(pre, taken(pre_input, post_input))
        &&& self.unread() <= pre.unread() + taken(pre_input, post_input).len()
    }

    /// A decoder with no bits. Bytes count as garbage ahead of the data until
    /// `end_pge` if `start_byte` is not 0.
    pub fn new(start_byte: usize) -> (decoder: Self)
        ensures
            decoder.wf(),
            decoder.state() == BitState::empty(),
            decoder.buffer() == Seq::<u8>::empty(),
            decoder.pge() == Seq::<u8>::empty(),
            decoder.in_pge() == (start_byte > 0),
            decoder.readings() == Seq::<Reading>::empty(),
            decoder.draws() == Seq::<Draw>::empty(),
    {
        HuffmanDecoder {
            bits: 0,
            num_bits: 0,
            sizes: 0,
            marker: None,
            buffer: Vec::new(),
            pge: Vec::new(),
            in_pge: start_byte > 0,
            readings: Ghost(Seq::empty()),
            draws: Ghost(Seq::empty()),
        }
    }

    /// Clears the log of the bytes taken off the stream, but for the bytes
    /// at its end of which no bit is used yet.
    pub fn clear_buffer(&mut self)
        requires
            old(self).wf(),
        ensures
            final(self).wf(),
            final(self).state() == old(self).state(),
            final(self).buffer() == old(self).carried(),
            final(self).pge() == old(self).pge(),
            final(self).in_pge() == old(self).in_pge(),
            final(self).unread() == old(self).unread(),
            final(self).readings() == old(self).readings(),
            final(self).draws() == old(self).draws(),
    {
        let unread = self.unread_bytes();
        let len = self.buffer.len();
        if unread < len {
            let mut kept: Vec<u8> = Vec::new();
            let mut i: usize = len - unread;
            while i < len
                invariant
                    len - unread <= i <= len,
                    len == self.buffer@.len(),
                    unread < len,
                    kept@ =~= self.buffer@.subrange(len - unread, i as int),
                    *self == *old(self),
                decreases len - i,
            {
                kept.push(self.buffer[i]);
                i += 1;
            }
            assert(kept@ =~= self.buffer@.skip(len - unread));
            self.buffer = kept;
        }
    }

    /// The number of bytes taken off the stream of which no bit is used
    /// yet: the stream has been read that far ahead.
    pub fn unread_bytes(&self) -> (count: usize)
        requires
            self.wf(),
        ensures
            count == self.unread(),
            count <= 9,
    {
        let whole = self.num_bits / 8;
        let mut sizes = self.sizes;
        let mut count: usize = 0;
        let mut k: u8 = 0;
        while k < whole
            invariant
                k <= whole <= 3,
                count <= 3 * k,
                count + raw_len(sizes as nat, (whole - k) as nat) == raw_len(
                    self.sizes as nat,
                    whole as nat,
                ),
            decreases whole - k,
        {
            count = count + (sizes % 4) as usize;
            sizes = sizes / 4;
            k += 1;
        }
        count
    }

    /// The log of the bytes taken off the stream.
    pub fn view_buffer(&self) -> (bytes: &[u8])
        ensures
            bytes@ == self.buffer(),
    {
        self.buffer.as_slice()
    }

    /// The bytes taken off the stream while they counted as garbage ahead of
    /// the entropy-coded data.
    pub fn get_pge(&self) -> (bytes: &[u8])
        ensures
            bytes@ == self.pge(),
    {
        self.pge.as_slice()
    }

    /// The log of garbage without the bytes at its end of which no bit is
    /// used yet: those are entropy-coded data to come.
    pub open spec fn settled_pge(&self) -> Seq<u8> {
        if self.unread() < self.pge().len() {
            self.pge().take(self.pge().len() - self.unread())
        } else {
            Seq::empty()
        }
    }

    /// From now on bytes count as entropy-coded data, and so do the bytes
    /// taken off the stream of which no bit is used yet.
    pub fn end_pge(&mut self)
        requires
            old(self).wf(),
        ensures
            final(self).wf(),
            final(self).state() == old(self).state(),
            final(self).buffer() == old(self).buffer(),
            final(self).pge() == old(self).settled_pge(),
            final(self).readings() == old(self).readings(),
            final(self).draws() == old(self).draws(),
            !final(self).in_pge(),
    {
        let unread = self.unread_bytes();
        let len = self.pge.len();
        if unread < len {
            self.pge.truncate(len - unread);
        } else {
            self.pge.clear();
        }
        self.in_pge = false;
    }

    /// Throws the bits away and forgets the marker.
    pub fn reset(&mut self)
        requires
            old(self).wf(),
        ensures
            final(self).wf(),
            final(self).state() == BitState::empty(),
            final(self).buffer() == old(self).buffer(),
            final(self).pge() == old(self).pge(),
            final(self).in_pge() == old(self).in_pge(),
            final(self).unread() == 0,
            final(self).readings() == old(self).readings(),
            final(self).draws() == old(self).draws(),
    {
        self.bits = 0;
        self.num_bits = 0;
        self.sizes = 0;
        self.marker = None;
    }

    /// The byte that holds the next bit, and how many of its bits are not
    /// yet used: 0 if the next bit opens a byte, and then the byte says
    /// nothing.
    pub fn handover_byte(&self) -> (snapshot: (u8, u8))
        requires
            self.wf(),
        ensures
            snapshot.1 == self.state().num_bits % 8,
            snapshot.0 == self.state().window / pow2((self.state().num_bits - snapshot.1) as nat)
                % 256,
    {
        let n_overhang_bit = self.num_bits % 8;
        let whole = self.num_bits - n_overhang_bit;
        let overhang_byte = (self.bits / two_pow(whole) % 256) as u8;
        (overhang_byte, n_overhang_bit)
    }

    /// The byte behind the `0xFF` of the marker that ended the entropy-coded
    /// data, if the reader has come upon one.
    pub fn marker(&self) -> (marker: Option<u8>)
        ensures
            marker == self.state().marker,
    {
        self.marker
    }

    /// Takes one byte off the stream and logs it.
    fn take_byte(&mut self, input: &mut InputStream) -> (r: JpegResult<u8>)
        requires
            old(self).wf(),
            old(input).wf(),
        ensures
            final(self).state() == old(self).state(),
            old(input).pending().len() >= 1 && old(input).processed() < usize::MAX ==> (
            r matches Ok(byte) && byte == old(input).pending()[0]) && final(input).pending() == old(input).pending().skip(1),
            match r {
                Ok(byte) => {
                    &&& final(self).logs(old(self), seq![byte])
                    &&& final(input).follows_read(old(input), seq![byte], false)
                    &&& final(input).processed() == old(input).processed() + 1
                    &&& final(input).processed() <= usize::MAX
                },
                Err(e) => {
                    &&& final(self).logs(old(self), Seq::<u8>::empty())
                    &&& final(input).same_as(old(input))
                    &&& e is EOF || e.is_malformatted("stream is too long"@)
                    &&& e is EOF ==> old(input).pending().len() == 0
                    &&& e is Malformatted ==> old(input).processed() == usize::MAX
                },
            },
    {
        proof {
            assert(self.buffer@ + Seq::<u8>::empty() =~= self.buffer@);
            assert(self.pge@ + Seq::<u8>::empty() =~= self.pge@);
        }
        if input.processed_len() == usize::MAX {
            return Err(JpegError::malformatted("stream is too long"));
        }
        proof {
            input.lemma_counted_from_in_range();
        }
        match input.read_byte(false) {
            Ok(byte) => {
                self.buffer.push(byte);
                if self.in_pge {
                    self.pge.push(byte);
                }
                proof {
                    assert(self.buffer@ =~= old(self).buffer@ + seq![byte]);
                    assert(old(self).in_pge ==> self.pge@ =~= old(self).pge@ + seq![byte]);
                    input.lemma_counted_from_in_range();
                }
                Ok(byte)
            },
            Err(e) => Err(JpegError::from_input(e)),
        }
    }

    /// Shifts one byte of data into the window; it came from `raw_size`
    /// bytes of the stream.
    fn push(&mut self, byte: u8, raw_size: u8)
        requires
            old(self).wf(),
            old(self).num_bits <= 23,
            raw_size <= 2,
        ensures
            final(self).logs(old(self), Seq::<u8>::empty()),
            final(self).state() == old(self).state().push(byte, raw_size as nat),
            final(self).buffer@ == old(self).buffer@,
            final(self).pge@ == old(self).pge@,
    {
        proof {
            lemma2_to64();
            assert(self.buffer@ + Seq::<u8>::empty() =~= self.buffer@);
            assert(self.pge@ + Seq::<u8>::empty() =~= self.pge@);
        }
        self.bits = (self.bits % 0x1000000) * 256 + byte as u32;
        self.sizes = (self.sizes % 0x40000000) * 4 + raw_size as u32;
        self.num_bits = self.num_bits + 8;
    }

    /// The next `count` bits, which stay where they are.
    fn peek_bits(&self, count: u8) -> (bits: u16)
        requires
            self.wf(),
            count <= 16,
            count <= self.num_bits,
        ensures
            bits == self.state().head(count as nat),
            bits < pow2(count as nat),
    {
        let high = two_pow(self.num_bits);
        let low = two_pow(self.num_bits - count);
        let pending = self.bits % high;
        let bits = pending / low;
        proof {
            lemma_pow2_adds(count as nat, (self.num_bits - count) as nat);
            assert(bits < pow2(count as nat)) by (nonlinear_arith)
                requires
                    bits == pending / low,
                    pending < high,
                    high == pow2(count as nat) * low,
                    low > 0,
            ;
            lemma_pow2_strictly_increases(count as nat, 17);
            lemma2_to64();
            lemma2_to64_rest();
        }
        bits as u16
    }

    /// Counts the next `count` bits as used.
    fn consume_bits(&mut self, count: u8)
        requires
            old(self).wf(),
            count <= old(self).num_bits,
        ensures
            final(self).logs(old(self), Seq::<u8>::empty()),
            final(self).state() == old(self).state().drop(count as nat),
            final(self).buffer@ == old(self).buffer@,
            final(self).pge@ == old(self).pge@,
    {
        proof {
            assert(self.buffer@ + Seq::<u8>::empty() =~= self.buffer@);
            assert(self.pge@ + Seq::<u8>::empty() =~= self.pge@);
        }
        self.num_bits = self.num_bits - count;
    }

    /// Takes bytes off the stream until `need` bits are there. A marker is
    /// left in the stream, and zero bits stand in for the bits that it cut
    /// short.
    #[verifier::spinoff_prover]
    #[verifier::rlimit(60)]
    pub fn fill(&mut self, input: &mut InputStream, need: u8) -> (r: JpegResult<()>)
        requires
            old(self).wf(),
            old(input).wf(),
            need <= 24,
        ensures
            final(self).worked(old(self), old(input), final(input)),
            final(self).readings() == old(self).readings(),
            final(self).draws() == old(self).draws(),
            old(self).state().serves(need as nat) ==> r is Ok && final(input).same_as(old(input)),
            old(self).state().marker is Some ==> final(self).state().marker == old(self).state().marker,
            can_feed(old(self).state(), old(input), need as nat) ==> r is Ok && fed_to(
                old(self).state(),
                old(input),
                final(input),
                need as nat,
            ),
            r matches Err(e) ==> met_the_end(e, final(input)),
            match r {
                Ok(_) => {
                    &&& final(self).state().num_bits >= need
                    &&& old(self).state().filled(
                        taken(old(input), final(input)),
                        final(self).state().marker,
                        need as nat,
                    ) == Some(final(self).state())
                },
                Err(e) => final(self).state().starved(e, need as nat),
            },
    {
        proof {
            assert(taken(old(input), input) =~= Seq::<u8>::empty());
            assert(self.buffer@ + Seq::<u8>::empty() =~= self.buffer@);
            assert(self.pge@ + Seq::<u8>::empty() =~= self.pge@);
            self.state().lemma_pad_bits(need as nat);
        }
        if self.num_bits >= need {
            proof {
                assert(old(input).pending().take(0) =~= Seq::<u8>::empty());
                assert(old(input).pending().skip(0) =~= old(input).pending());
            }
            return Ok(());
        }
        let ghost at_hand = old(input).pending();
        let ghost start = old(input).processed();
        let ghost enough = old(self).state().fed(at_hand, need as nat)->0;
        let ghost owed = old(self).state().fed(at_hand, need as nat) is Some && start + enough
            <= usize::MAX;
        proof {
            assert(at_hand.skip(0) =~= at_hand);
            assert(at_hand.take(0) =~= Seq::<u8>::empty());
            old(self).state().lemma_fed_within(at_hand, need as nat);
        }
        while self.num_bits < need
            invariant
                at_hand == old(input).pending(),
                start == old(input).processed(),
                owed == (old(self).state().fed(at_hand, need as nat) is Some && start + enough
                    <= usize::MAX),
                enough == old(self).state().fed(at_hand, need as nat)->0,
                owed ==> enough <= at_hand.len(),
                owed ==> ({
                    let j = taken(old(input), input).len();
                    &&& j <= enough
                    &&& self.state().fed(at_hand.skip(j as int), need as nat) == Some(
                        (enough - j) as nat,
                    )
                    &&& at_hand.skip(j as int).is_prefix_of(input.pending())
                    &&& input.processed() == start + j
                    &&& taken(old(input), input) == at_hand.take(j as int)
                }),
                self.wf(),
                need <= 24,
                self.num_bits < need + 8,
                self.worked(old(self), old(input), input),
                self.readings() == old(self).readings(),
                self.draws() == old(self).draws(),
                old(self).num_bits < need,
                old(self).marker is Some ==> self.marker == old(self).marker && input.same_as(
                    old(input),
                ),
                old(self).state().absorb(taken(old(input), input)) matches Some(state) && {
                    &&& state.num_bits <= self.num_bits
                    &&& state.num_bits < need || state.num_bits == self.num_bits
                    &&& state.marked(self.marker).pad(self.num_bits as nat) == self.state()
                    &&& self.marker is None ==> state == self.state()
                },
            decreases
                    (if self.marker is None {
                        1nat
                    } else {
                        0nat
                    }),
                    need + 8 - self.num_bits,
        {
            let ghost before = *self;
            let ghost raw_before = taken(old(input), input);
            let ghost absorbed = old(self).state().absorb(raw_before)->0;
            let ghost rest = at_hand.skip(raw_before.len() as int);
            let ghost entered = *input;
            proof {
                if owed && self.marker is None {
                    assert(rest.len() >= 1);
                    assert(input.pending()[0] == rest[0]);
                }
            }
            if self.marker.is_some() {
                // The data has ended: zero bits stand in for what is missing.
                proof {
                    self.state().lemma_push_unread(0, 0 as nat);
                }
                self.push(0, 0);
                proof {
                    absorbed.marked(before.marker).lemma_pad_step(before.num_bits as nat);
                    assert(self.buffer@ + raw_before =~= self.buffer@ + raw_before);
                }
                continue ;
            }
            let byte = match input.peek_byte() {
                Ok(byte) => byte,
                Err(e) => {
                    proof {
                        assert(taken(old(input), input) =~= raw_before);
                    }
                    return Err(JpegError::from_input(e));
                },
            };
            let ghost peeked = *input;
            proof {
                assert(taken(old(input), input) =~= raw_before);
            }
            if byte != 0xFF {
                let data = match self.take_byte(input) {
                    Ok(data) => data,
                    Err(e) => {
                        proof {
                            assert(taken(old(input), input) =~= raw_before);
                            assert(self.buffer@ =~= old(self).buffer@ + raw_before);
                            assert(old(self).in_pge ==> self.pge@ =~= old(self).pge@ + raw_before);
                        }
                        return Err(e);
                    },
                };
                proof {
                    self.state().lemma_push_unread(data, 1 as nat);
                }
                self.push(data, 1);
                proof {
                    lemma_read_after_peek(&peeked, input, data, seq![byte]);
                    lemma_taken_append(old(input), &peeked, input, seq![data]);
                    let raw = taken(old(input), input);
                    old(self).state().lemma_absorb_append(raw_before, seq![data]);
                    absorbed.lemma_absorb_data(data);
                    let now = absorbed.push(data, 1);
                    now.lemma_pad_bits(self.num_bits as nat);
                    assert(self.buffer@ =~= old(self).buffer@ + raw);
                    assert(old(self).in_pge ==> self.pge@ =~= old(self).pge@ + raw);
                    if owed {
                        let j = raw_before.len() as int;
                        assert(rest.is_prefix_of(peeked.pending()));
                        assert(data == rest[0]);
                        assert(rest.skip(1) =~= at_hand.skip(j + 1));
                        assert(raw =~= at_hand.take(j + 1));
                        assert(input.pending() == peeked.pending().skip(1));
                        assert(rest.skip(1).is_prefix_of(input.pending()));
                    }
                }
                continue ;
            }
            // `0xFF`: a stuffed zero follows, or this is a marker.
            let mut two = [0u8; 2];
            match input.peek(&mut two, true) {
                Ok(_) => {},
                Err(e) => {
                    proof {
                        assert(taken(old(input), input) =~= raw_before);
                        assert(input.pending() == peeked.pending());
                        assert(peeked.pending().len() < 2);
                        assert(seq![byte].is_prefix_of(peeked.pending()));
                        assert(peeked.pending().subrange(0, 1) == seq![byte]);
                        assert(peeked.pending().subrange(0, 1)[0] == peeked.pending()[0]);
                        assert(peeked.pending()[0] == byte);
                        assert(drained(input));
                    }
                    return Err(JpegError::from_input(e));
                },
            }
            let ghost looked = *input;
            proof {
                assert(taken(old(input), input) =~= raw_before);
                assert(two@.take(2) =~= two@);
                assert(two@.is_prefix_of(looked.pending()));
                assert(seq![byte].is_prefix_of(looked.pending()));
                assert(two@[0] == 0xFF);
            }
            proof {
                if owed {
                    assert(rest.is_prefix_of(looked.pending()));
                    assert(rest.len() >= 2);
                    assert(rest[1] == two@[1]);
                }
            }
            if two[1] != 0x00 {
                self.marker = Some(two[1]);
                proof {
                    absorbed.marked(self.marker).lemma_pad_bits(self.num_bits as nat);
                }
                continue ;
            }
            let first = match self.take_byte(input) {
                Ok(data) => data,
                Err(e) => {
                    proof {
                        assert(taken(old(input), input) =~= raw_before);
                        assert(self.buffer@ =~= old(self).buffer@ + raw_before);
                        assert(old(self).in_pge ==> self.pge@ =~= old(self).pge@ + raw_before);
                    }
                    return Err(e);
                },
            };
            let ghost halfway = *input;
            let ghost halfway_self = *self;
            proof {
                lemma_read_after_peek(&looked, input, first, two@);
                lemma_taken_append(old(input), &looked, input, seq![first]);
                assert(self.buffer@ =~= old(self).buffer@ + taken(old(input), input));
                assert(old(self).in_pge ==> self.pge@ =~= old(self).pge@ + taken(
                    old(input),
                    input,
                ));
            }
            let second = match self.take_byte(input) {
                Ok(data) => data,
                Err(e) => {
                    proof {
                        assert(taken(old(input), input) =~= taken(old(input), &halfway));
                        assert(self.buffer@ =~= halfway_self.buffer@);
                        assert(self.pge@ =~= halfway_self.pge@);
                    }
                    return Err(e);
                },
            };
            proof {
                self.state().lemma_push_unread(0xFF, 2 as nat);
            }
            self.push(0xFF, 2);
            proof {
                lemma_read_after_peek(&halfway, input, second, two@.skip(1));
                lemma_taken_append(old(input), &halfway, input, seq![second]);
                let raw = taken(old(input), input);
                let unit = seq![0xFFu8, 0x00u8];
                assert(raw =~= raw_before + unit);
                old(self).state().lemma_absorb_append(raw_before, unit);
                absorbed.law_stuffed_zero();
                let now = absorbed.push(0xFF, 2);
                now.lemma_pad_bits(self.num_bits as nat);
                assert(self.buffer@ =~= old(self).buffer@ + raw);
                assert(old(self).in_pge ==> self.pge@ =~= old(self).pge@ + raw);
                if owed {
                    let j = raw_before.len() as int;
                    assert(rest.skip(2) =~= at_hand.skip(j + 2));
                    assert(raw =~= at_hand.take(j + 2));
                    assert(halfway.pending() == looked.pending().skip(1));
                    assert(input.pending() == halfway.pending().skip(1));
                    assert(rest.skip(2).is_prefix_of(input.pending()));
                }
            }
        }
        proof {
            let raw = taken(old(input), input);
            let state = old(self).state().absorb(raw)->0;
            state.marked(self.marker).lemma_pad_less(self.num_bits as nat, need as nat);
        }
        Ok(())
    }

    /// The next `count` bits as a number.
    pub fn get_bits(&mut self, input: &mut InputStream, count: u8) -> (r: JpegResult<u16>)
        requires
            old(self).wf(),
            old(input).wf(),
            count <= 16,
        ensures
            final(self).worked(old(self), old(input), final(input)),
            old(self).state().serves(count as nat) ==> r is Ok && final(input).same_as(old(input)),
            can_feed(old(self).state(), old(input), count as nat) ==> r is Ok && fed_to(
                old(self).state(),
                old(input),
                final(input),
                count as nat,
            ),
            old(self).state().marker is Some ==> final(self).state().marker == old(self).state().marker,
            match r {
                Ok(bits) => old(self).state().filled(
                    taken(old(input), final(input)),
                    final(self).state().marker,
                    count as nat,
                ) matches Some(state) && bits == state.head(count as nat) && bits < pow2(
                    count as nat,
                ) && final(self).state() == state.drop(count as nat) && final(self).readings()
                    == old(self).readings().push(Reading::Bits(count, bits)) && final(self).draws()
                    == old(self).draws().push(
                    Draw {
                        reading: Reading::Bits(count, bits),
                        before: old(self).state(),
                        raw: taken(old(input), final(input)),
                        after: final(self).state(),
                        table: None,
                    },
                ),
                Err(e) => final(self).state().starved(e, count as nat) && met_the_end(
                    e,
                    final(input),
                ) && final(self).readings() == old(self).readings() && final(self).draws() == old(self).draws(),
            },
    {
        match self.fill(input, count) {
            Ok(_) => {},
            Err(e) => {
                return Err(e);
            },
        }
        let ghost filled = *self;
        let bits = self.peek_bits(count);
        proof {
            self.state().lemma_drop_unread(count as nat);
        }
        self.consume_bits(count);
        proof {
            assert(self.buffer@ =~= filled.buffer@);
            assert(self.pge@ =~= filled.pge@);
        }
        self.readings = Ghost(self.readings@.push(Reading::Bits(count, bits)));
        self.draws = Ghost(
            self.draws@.push(
                Draw {
                    reading: Reading::Bits(count, bits),
                    before: old(self).state(),
                    raw: taken(old(input), input),
                    after: self.state(),
                    table: None,
                },
            ),
        );
        Ok(bits)
    }

    /// The next `count` bits as a signed value: a magnitude, sign-extended.
    pub fn receive_extend(&mut self, input: &mut InputStream, count: u8) -> (r: JpegResult<i16>)
        requires
            old(self).wf(),
            old(input).wf(),
            count <= 15,
        ensures
            final(self).worked(old(self), old(input), final(input)),
            old(self).state().serves(count as nat) ==> r is Ok && final(input).same_as(old(input)),
            can_feed(old(self).state(), old(input), count as nat) ==> r is Ok && fed_to(
                old(self).state(),
                old(input),
                final(input),
                count as nat,
            ),
            old(self).state().marker is Some ==> final(self).state().marker == old(self).state().marker,
            match r {
                Ok(value) => old(self).state().filled(
                    taken(old(input), final(input)),
                    final(self).state().marker,
                    count as nat,
                ) matches Some(state) && value == extend_spec(
                    state.head(count as nat),
                    count as nat,
                ) && final(self).state() == state.drop(count as nat) && final(self).readings()
                    == old(self).readings().push(Reading::Value(count, value)) && final(self).draws() == old(self).draws().push(
                    Draw {
                        reading: Reading::Value(count, value),
                        before: old(self).state(),
                        raw: taken(old(input), final(input)),
                        after: final(self).state(),
                        table: None,
                    },
                ),
                Err(e) => final(self).state().starved(e, count as nat) && met_the_end(
                    e,
                    final(input),
                ) && final(self).readings() == old(self).readings() && final(self).draws() == old(self).draws(),
            },
    {
        match self.fill(input, count) {
            Ok(_) => {},
            Err(e) => {
                return Err(e);
            },
        }
        let ghost filled = *self;
        let bits = self.peek_bits(count);
        proof {
            self.state().lemma_drop_unread(count as nat);
        }
        self.consume_bits(count);
        proof {
            assert(self.buffer@ =~= filled.buffer@);
            assert(self.pge@ =~= filled.pge@);
        }
        let value = extend(bits, count);
        self.readings = Ghost(self.readings@.push(Reading::Value(count, value)));
        self.draws = Ghost(
            self.draws@.push(
                Draw {
                    reading: Reading::Value(count, value),
                    before: old(self).state(),
                    raw: taken(old(input), input),
                    after: self.state(),
                    table: None,
                },
            ),
        );
        Ok(value)
    }

    /// The value of the Huffman code that the next bits spell. The decoder
    /// looks at the next 16 bits; zero bits stand in for those that a marker
    /// cut short.
    pub fn decode(&mut self, input: &mut InputStream, table: &HuffmanTable) -> (r: JpegResult<u8>)
        requires
            old(self).wf(),
            old(input).wf(),
            table.wf(),
        ensures
            final(self).worked(old(self), old(input), final(input)),
            old(self).state().serves(16) ==> final(input).same_as(old(input)) && (r matches Err(e)
                ==> e.is_malformatted("failed to decode huffman code"@)),
            can_feed(old(self).state(), old(input), 16) ==> fed_to(
                old(self).state(),
                old(input),
                final(input),
                16,
            ) && (r matches Err(e) ==> e.is_malformatted("failed to decode huffman code"@)),
            old(self).state().marker is Some ==> final(self).state().marker == old(self).state().marker,
            match r {
                Ok(value) => old(self).state().filled(
                    taken(old(input), final(input)),
                    final(self).state().marker,
                    16,
                ) matches Some(state) && state.decoded(table) == Some((value, final(self).state()))
                    && final(self).readings() == old(self).readings().push(Reading::Code(value))
                    && final(self).draws() == old(self).draws().push(
                    Draw {
                        reading: Reading::Code(value),
                        before: old(self).state(),
                        raw: taken(old(input), final(input)),
                        after: final(self).state(),
                        table: Some(*table),
                    },
                ),
                Err(e) => final(self).readings() == old(self).readings() && final(self).draws()
                    == old(self).draws() && {
                    ||| final(self).state().starved(e, 16) && met_the_end(e, final(input))
                    ||| {
                        &&& e.is_malformatted("failed to decode huffman code"@)
                        &&& old(self).state().filled(
                            taken(old(input), final(input)),
                            final(self).state().marker,
                            16,
                        ) matches Some(state) && state.decoded(table) is None && final(self).state() == state
                    }
                },
            },
    {
        match self.fill(input, 16) {
            Ok(_) => {},
            Err(e) => {
                return Err(e);
            },
        }
        let ghost filled = *self;
        let window = self.peek_bits(16);
        let entry = table.lookup((window / 256) as u8);
        proof {
            table.lemma_wf();
            lemma2_to64();
            let counts = table.counts();
            let w = window as nat;
            assert(prefix(w, 16, 8) == w / 256);
            lemma_code_len_of_prefix(counts, w, 16, 8, 1, 8);
            lemma_code_len_split(counts, w, 16, 1, 8, 16);
            if code_len(counts, w, 16, 1, 8) is Some {
                lemma_code_len_found(counts, w, 16, 1, 8);
                lemma_prefix_of_prefix(w, 16, 8, code_len(counts, w, 16, 1, 8)->0);
            }
        }
        if entry.len > 0 {
            proof {
                self.state().lemma_drop_unread(entry.len as nat);
            }
            self.consume_bits(entry.len);
            proof {
                assert(self.buffer@ =~= filled.buffer@);
                assert(self.pge@ =~= filled.pge@);
            }
            self.readings = Ghost(self.readings@.push(Reading::Code(entry.value)));
            self.draws = Ghost(
                self.draws@.push(
                    Draw {
                        reading: Reading::Code(entry.value),
                        before: old(self).state(),
                        raw: taken(old(input), input),
                        after: self.state(),
                        table: Some(*table),
                    },
                ),
            );
            return Ok(entry.value);
        }
        match table.find(window as u32, 16, LUT_BITS + 1) {
            Some((value, len)) => {
                proof {
                    self.state().lemma_drop_unread(len as nat);
                }
                self.consume_bits(len);
                proof {
                    assert(self.buffer@ =~= filled.buffer@);
                    assert(self.pge@ =~= filled.pge@);
                }
                self.readings = Ghost(self.readings@.push(Reading::Code(value)));
                self.draws = Ghost(
                    self.draws@.push(
                        Draw {
                            reading: Reading::Code(value),
                            before: old(self).state(),
                            raw: taken(old(input), input),
                            after: self.state(),
                            table: Some(*table),
                        },
                    ),
                );
                Ok(value)
            },
            None => Err(JpegError::malformatted("failed to decode huffman code")),
        }
    }

    /// A short AC coefficient with the run of zeros before it, if the table
    /// has a side table for them and the next eight bits hold one whole:
    /// its Huffman code and its magnitude bits. `None` leaves the bits as
    /// they are.
    pub fn decode_fast_ac(&mut self, input: &mut InputStream, table: &HuffmanTable) -> (r:
        JpegResult<Option<(i16, u8)>>)
        requires
            old(self).wf(),
            old(input).wf(),
            table.wf(),
        ensures
            final(self).worked(old(self), old(input), final(input)),
            match r {
                Ok(found) => final(self).readings() == old(self).readings().push(
                    Reading::Short(found),
                ) && final(self).draws() == old(self).draws().push(
                    Draw {
                        reading: Reading::Short(found),
                        before: old(self).state(),
                        raw: taken(old(input), final(input)),
                        after: final(self).state(),
                        table: Some(*table),
                    },
                ),
                Err(_) => final(self).readings() == old(self).readings() && final(self).draws()
                    == old(self).draws(),
            },
            !table.is_ac() ==> r == Ok::<Option<(i16, u8)>, JpegError>(None) && final(self).state()
                == old(self).state() && final(input).same_as(old(input)),
            old(self).state().serves(16) ==> r is Ok && final(input).same_as(old(input)),
            can_feed(old(self).state(), old(input), 16) ==> r is Ok,
            table.is_ac() && can_feed(old(self).state(), old(input), 16) ==> fed_to(
                old(self).state(),
                old(input),
                final(input),
                16,
            ),
            r matches Err(e) ==> met_the_end(e, final(input)),
            old(self).state().marker is Some ==> final(self).state().marker == old(self).state().marker,
            table.is_ac() ==> match r {
                Ok(found) => old(self).state().filled(
                    taken(old(input), final(input)),
                    final(self).state().marker,
                    16,
                ) matches Some(state) && {
                    let entry = table.ac_entry(state.head(8));
                    match found {
                        Some((value, run)) => entry.bits > 0 && value == entry.value && run
                            == entry.run && final(self).state() == state.drop(entry.bits as nat),
                        None => entry.bits == 0 && final(self).state() == state,
                    }
                },
                Err(e) => final(self).state().starved(e, 16),
            },
    {
        proof {
            assert(taken(old(input), input) =~= Seq::<u8>::empty());
            assert(self.buffer@ + Seq::<u8>::empty() =~= self.buffer@);
            assert(self.pge@ + Seq::<u8>::empty() =~= self.pge@);
        }
        if table.lookup_ac(0).is_none() {
            self.readings = Ghost(self.readings@.push(Reading::Short(None)));
            self.draws = Ghost(
                self.draws@.push(
                    Draw {
                        reading: Reading::Short(None),
                        before: old(self).state(),
                        raw: taken(old(input), input),
                        after: self.state(),
                        table: Some(*table),
                    },
                ),
            );
            return Ok(None);
        }
        match self.fill(input, 16) {
            Ok(_) => {},
            Err(e) => {
                return Err(e);
            },
        }
        let ghost filled = *self;
        let index = self.peek_bits(LUT_BITS);
        proof {
            lemma2_to64();
        }
        match table.lookup_ac(index as u8) {
            Some(entry) => {
                if entry.bits > 0 {
                    proof {
                        lemma_ac_entry_bits(table.counts(), table.values(), index as nat);
                    }
                    proof {
                        self.state().lemma_drop_unread(entry.bits as nat);
                    }
                    self.consume_bits(entry.bits);
                    proof {
                        assert(self.buffer@ =~= filled.buffer@);
                        assert(self.pge@ =~= filled.pge@);
                    }
                    self.readings = Ghost(
                        self.readings@.push(Reading::Short(Some((entry.value, entry.run)))),
                    );
                    self.draws = Ghost(
                        self.draws@.push(
                            Draw {
                                reading: Reading::Short(Some((entry.value, entry.run))),
                                before: old(self).state(),
                                raw: taken(old(input), input),
                                after: self.state(),
                                table: Some(*table),
                            },
                        ),
                    );
                    Ok(Some((entry.value, entry.run)))
                } else {
                    self.readings = Ghost(self.readings@.push(Reading::Short(None)));
                    self.draws = Ghost(
                        self.draws@.push(
                            Draw {
                                reading: Reading::Short(None),
                                before: old(self).state(),
                                raw: taken(old(input), input),
                                after: self.state(),
                                table: Some(*table),
                            },
                        ),
                    );
                    Ok(None)
                }
            },
            None => {
                self.readings = Ghost(self.readings@.push(Reading::Short(None)));
                self.draws = Ghost(
                    self.draws@.push(
                        Draw {
                            reading: Reading::Short(None),
                            before: old(self).state(),
                            raw: taken(old(input), input),
                            after: self.state(),
                            table: Some(*table),
                        },
                    ),
                );
                Ok(None)
            },
        }
    }

    /// Takes the restart marker `RSTn` with `n == expected_rst_num` off the
    /// stream: `0xFF`, any number of fill bytes `0xFF`, and the marker's own
    /// byte. It fails if anything else is next in the stream.
    pub fn read_rst(&mut self, input: &mut InputStream, expected_rst_num: u8) -> (r: JpegResult<()>)
        requires
            old(self).wf(),
            old(input).wf(),
            expected_rst_num <= 7,
        ensures
            final(self).worked(old(self), old(input), final(input)),
            final(self).readings() == old(self).readings(),
            final(self).draws() == old(self).draws(),
            final(self).state() == old(self).state().marked(final(self).state().marker),
            forall|k: int| #[trigger]
                fill_run(old(input).pending(), k) && old(input).processed() + k <= usize::MAX ==> {
                    &&& rst_answer(r, expected_rst_num, old(input).pending()[k - 1])
                    &&& taken(old(input), final(input)) == old(input).pending().take(k)
                    &&& final(input).pending() == old(input).pending().skip(k)
                },
            old(input).pending().len() >= 1 && old(input).pending()[0] != 0xFF && old(input).processed() < usize::MAX ==> (r matches Err(e) && e.is_malformatted(
                "no marker found where RST was expected"@,
            )),
            match r {
                Ok(_) => {
                    let raw = taken(old(input), final(input));
                    &&& final(self).state().marker is None
                    &&& fill_run(raw, raw.len() as int)
                    &&& Marker::of(raw.last()) == Some(Marker::RST(expected_rst_num))
                },
                Err(e) => {
                    let raw = taken(old(input), final(input));
                    ||| {
                        &&& e is EOF || e.is_malformatted("stream is too long"@)
                        &&& forall|i: int| 0 <= i < raw.len() ==> raw[i] == 0xFF
                        &&& e is EOF ==> final(input).pending().len() == 0
                        &&& met_the_end(e, final(input))
                    }
                    ||| {
                        &&& raw.len() == 1
                        &&& raw[0] != 0xFF
                        &&& e.is_malformatted("no marker found where RST was expected"@)
                    }
                    ||| {
                        &&& fill_run(raw, raw.len() as int)
                        &&& !(Marker::of(raw.last()) == Some(Marker::RST(expected_rst_num)))
                        &&& rst_answer(Err::<(), JpegError>(e), expected_rst_num, raw.last())
                    }
                },
            },
    {
        let ghost at_hand = old(input).pending();
        let ghost start = old(input).processed();
        let ghost owed = exists|k: int| #[trigger]
            fill_run(at_hand, k) && start + k <= usize::MAX;
        let ghost end = choose|k: int| #[trigger] fill_run(at_hand, k) && start + k <= usize::MAX;
        proof {
            assert(taken(old(input), input) =~= Seq::<u8>::empty());
            assert(self.buffer@ + Seq::<u8>::empty() =~= self.buffer@);
            assert(self.pge@ + Seq::<u8>::empty() =~= self.pge@);
            assert(at_hand.skip(0) =~= at_hand);
        }
        let first = match self.take_byte(input) {
            Ok(byte) => byte,
            Err(e) => {
                proof {
                    assert(taken(old(input), input) =~= Seq::<u8>::empty());
                }
                return Err(e);
            },
        };
        let ghost mut raw = seq![first];
        proof {
            assert(taken(old(input), input) =~= raw);
            if at_hand.len() >= 1 {
                assert(raw =~= at_hand.take(1));
            }
        }
        if first != 0xFF {
            return Err(JpegError::malformatted("no marker found where RST was expected"));
        }
        let mut next = match self.take_byte(input) {
            Ok(byte) => byte,
            Err(e) => {
                proof {
                    assert(taken(old(input), input) =~= raw);
                }
                return Err(e);
            },
        };
        proof {
            raw = raw.push(next);
            assert(taken(old(input), input) =~= raw);
            assert(self.buffer@ =~= old(self).buffer@ + raw);
            assert(old(self).in_pge ==> self.pge@ =~= old(self).pge@ + raw);
            if at_hand.len() >= 2 {
                assert(raw =~= at_hand.take(2));
                assert(input.pending() =~= at_hand.skip(2));
            }
        }
        while next == 0xFF
            invariant
                self.wf(),
                self.worked(old(self), old(input), input),
                self.readings() == old(self).readings(),
                self.draws() == old(self).draws(),
                self.state() == old(self).state(),
                raw == taken(old(input), input),
                raw.len() >= 2,
                raw.last() == next,
                forall|i: int| 0 <= i < raw.len() - 1 ==> raw[i] == 0xFF,
                at_hand == old(input).pending(),
                start == old(input).processed(),
                owed == (exists|k: int| #[trigger]
                    fill_run(at_hand, k) && start + k <= usize::MAX),
                owed ==> fill_run(at_hand, end) && start + end <= usize::MAX,
                owed ==> raw.len() <= end,
                at_hand.len() >= 1 ==> at_hand[0] == 0xFF,
                input.processed() == start + raw.len(),
                raw.len() <= at_hand.len() ==> raw == at_hand.take(raw.len() as int)
                    && input.pending() == at_hand.skip(raw.len() as int),
            decreases usize::MAX - input.processed(),
        {
            let ghost before_input = *input;
            let ghost before = *self;
            proof {
                if owed {
                    if raw.len() == end {
                        assert(raw[end - 1] == at_hand[end - 1]);
                    }
                    assert(raw.len() < end);
                }
            }
            match self.take_byte(input) {
                Ok(byte) => {
                    next = byte;
                    proof {
                        lemma_taken_append(old(input), &before_input, input, seq![byte]);
                        let ghost more = raw.push(byte);
                        assert(taken(old(input), input) =~= more);
                        assert(self.buffer@ =~= old(self).buffer@ + more);
                        assert(old(self).in_pge ==> self.pge@ =~= old(self).pge@ + more);
                        if more.len() <= at_hand.len() {
                            assert(more =~= at_hand.take(more.len() as int));
                            assert(input.pending() =~= at_hand.skip(more.len() as int));
                        }
                        raw = more;
                    }
                },
                Err(e) => {
                    proof {
                        assert(taken(old(input), input) =~= raw);
                        assert(self.buffer@ =~= before.buffer@);
                        assert(self.pge@ =~= before.pge@);
                    }
                    return Err(e);
                },
            }
        }
        self.marker = None;
        proof {
            if owed {
                if raw.len() < end {
                    assert(raw[raw.len() - 1] == at_hand[raw.len() - 1]);
                }
                assert(raw.len() == end);
                assert forall|k: int| #[trigger] fill_run(at_hand, k) implies k == end by {
                    if k < end {
                        assert(at_hand[k - 1] != 0xFF);
                    }
                    if end < k {
                        assert(at_hand[end - 1] != 0xFF);
                    }
                }
            }
        }
        match Marker::from_u8(next) {
            Some(Marker::RST(n)) => {
                if n == expected_rst_num {
                    Ok(())
                } else {
                    Err(JpegError::Malformatted(rst_mismatch_text(expected_rst_num, n)))
                }
            },
            Some(_) => Err(
                JpegError::malformatted("found marker inside scan where RST was expected"),
            ),
            None => Err(JpegError::malformatted("FF 00 found where marker was expected")),
        }
    }
}

impl BitState {
    /// The reader after the Huffman code at its head was decoded with
    /// `table`, and the value of the code; `None` if the next 16 bits open
    /// with no code of the table.
    pub open spec fn decoded(self, table: &HuffmanTable) -> Option<(u8, BitState)> {
        match table.symbol(self.head(16), 16) {
            Some((value, len)) => Some((value, self.drop(len))),
            None => None,
        }
    }
}

/// An entry for a short AC coefficient takes between two and eight bits.
proof fn lemma_ac_entry_bits(counts: Seq<u8>, values: Seq<u8>, i: nat)
    ensures
        ac_entry_in(counts, values, i).bits <= 8,
{
    if code_len(counts, i, 8, 1, 8) is Some {
        lemma_code_len_found(counts, i, 8, 1, 8);
    }
}

/// The byte read behind a peek is the first byte that the peek showed, and
/// the rest of what it showed is still pending.
proof fn lemma_read_after_peek(pre: &InputStream, post: &InputStream, byte: u8, shown: Seq<u8>)
    requires
        shown.is_prefix_of(pre.pending()),
        shown.len() >= 1,
        post.follows_read(pre, seq![byte], false),
    ensures
        byte == shown[0],
        shown.skip(1).is_prefix_of(post.pending()),
{
    let whole = seq![byte] + post.pending();
    assert(pre.pending().is_prefix_of(whole));
    assert(shown[0] == pre.pending()[0]);
    assert(pre.pending()[0] == whole[0]);
    assert forall|i: int| 0 <= i < shown.len() - 1 implies shown.skip(1)[i] == post.pending()[i] by {
        assert(shown[i + 1] == pre.pending()[i + 1]);
        assert(pre.pending()[i + 1] == whole[i + 1]);
    }
    assert(shown.skip(1) =~= post.pending().subrange(0, shown.len() - 1));
}

/// What was taken up to `mid` and `more` behind it is what was taken in all.
proof fn lemma_taken_append(pre: &InputStream, mid: &InputStream, post: &InputStream, more: Seq<u8>)
    requires
        advanced(pre, mid),
        post.wf(),
        post.consumed() == mid.consumed() + more,
        post.counted_from() == mid.counted_from(),
        post.retained() == mid.retained(),
    ensures
        advanced(pre, post),
        taken(pre, post) == taken(pre, mid) + more,
{
    assert(taken(pre, post) =~= taken(pre, mid) + more);
}

/// A stream that has advanced twice has advanced.
pub proof fn lemma_advanced_trans(first: &InputStream, second: &InputStream, third: &InputStream)
    requires
        advanced(first, second),
        advanced(second, third),
    ensures
        advanced(first, third),
        taken(first, third) == taken(first, second) + taken(second, third),
{
    assert(taken(first, third) =~= taken(first, second) + taken(second, third));
}

/// The tables of one kind are four slots, and the tables in them are
/// well-formed.
pub open spec fn tables_wf(tables: Seq<Option<HuffmanTable>>) -> bool {
    &&& tables.len() == 4
    &&& forall|i: int| 0 <= i < 4 ==> (#[trigger] tables[i] matches Some(table) ==> table.wf())
}

/// A decoder that has not worked has worked on no bytes.
pub proof fn lemma_worked_refl(decoder: &HuffmanDecoder, input: &InputStream)
    requires
        decoder.wf(),
        input.wf(),
    ensures
        decoder.worked(decoder, input, input),
{
    assert(taken(input, input) =~= Seq::<u8>::empty());
    assert(decoder.buffer() + Seq::<u8>::empty() =~= decoder.buffer());
    assert(decoder.pge() + Seq::<u8>::empty() =~= decoder.pge());
}

/// Work done in two steps is work done.
pub proof fn lemma_worked_trans(
    first: &HuffmanDecoder,
    second: &HuffmanDecoder,
    third: &HuffmanDecoder,
    input_first: &InputStream,
    input_second: &InputStream,
    input_third: &InputStream,
)
    requires
        second.worked(first, input_first, input_second),
        third.worked(second, input_second, input_third),
    ensures
        third.worked(first, input_first, input_third),
        taken(input_first, input_third) == taken(input_first, input_second) + taken(
            input_second,
            input_third,
        ),
        first.readings().is_prefix_of(second.readings()) && second.readings().is_prefix_of(
            third.readings(),
        ) ==> third.read_since(first) == second.read_since(first) + third.read_since(second),
{
    if first.readings().is_prefix_of(second.readings()) && second.readings().is_prefix_of(
        third.readings(),
    ) {
        assert(third.read_since(first) =~= second.read_since(first) + third.read_since(second));
    }
    let a = taken(input_first, input_second);
    let b = taken(input_second, input_third);
    assert(taken(input_first, input_third) =~= a + b);
    assert(first.buffer() + (a + b) =~= (first.buffer() + a) + b);
    assert(first.pge() + (a + b) =~= (first.pge() + a) + b);
}

/// The counts of the table that Motion JPEG takes for granted for the DC
/// coefficients of luminance.
pub open spec fn mjpeg_dc_luminance_counts() -> Seq<u8> {
    seq![0u8, 1, 5, 1, 1, 1, 1, 1, 1, 0, 0, 0, 0, 0, 0, 0]
}

/// The counts of the table that Motion JPEG takes for granted for the DC
/// coefficients of chrominance.
pub open spec fn mjpeg_dc_chrominance_counts() -> Seq<u8> {
    seq![0u8, 3, 1, 1, 1, 1, 1, 1, 1, 1, 1, 0, 0, 0, 0, 0]
}

/// The counts of the table that Motion JPEG takes for granted for the AC
/// coefficients of luminance.
pub open spec fn mjpeg_ac_luminance_counts() -> Seq<u8> {
    seq![0u8, 2, 1, 3, 3, 2, 4, 3, 5, 5, 4, 4, 0, 0, 1, 0x7D]
}

/// The counts of the table that Motion JPEG takes for granted for the AC
/// coefficients of chrominance.
pub open spec fn mjpeg_ac_chrominance_counts() -> Seq<u8> {
    seq![0u8, 2, 1, 2, 4, 4, 3, 4, 7, 5, 4, 4, 0, 1, 2, 0x77]
}

/// The values of the two tables that Motion JPEG takes for granted for DC
/// coefficients: the categories in rising order.
pub open spec fn mjpeg_dc_values() -> Seq<u8> {
    seq![0x00u8, 0x01, 0x02, 0x03, 0x04, 0x05, 0x06, 0x07, 0x08, 0x09, 0x0A, 0x0B]
}

/// The values of the table that Motion JPEG takes for granted for the AC
/// coefficients of luminance.
pub open spec fn mjpeg_ac_luminance_values() -> Seq<u8> {
    seq![
        0x01u8, 0x02, 0x03, 0x00, 0x04, 0x11, 0x05, 0x12, 0x21, 0x31, 0x41, 0x06, 0x13, 0x51,
        0x61, 0x07, 0x22, 0x71, 0x14, 0x32, 0x81, 0x91, 0xA1, 0x08, 0x23, 0x42, 0xB1, 0xC1,
        0x15, 0x52, 0xD1, 0xF0, 0x24, 0x33, 0x62, 0x72, 0x82, 0x09, 0x0A, 0x16, 0x17, 0x18,
        0x19, 0x1A, 0x25, 0x26, 0x27, 0x28, 0x29, 0x2A, 0x34, 0x35, 0x36, 0x37, 0x38, 0x39,
        0x3A, 0x43, 0x44, 0x45, 0x46, 0x47, 0x48, 0x49, 0x4A, 0x53, 0x54, 0x55, 0x56, 0x57,
        0x58, 0x59, 0x5A, 0x63, 0x64, 0x65, 0x66, 0x67, 0x68, 0x69, 0x6A, 0x73, 0x74, 0x75,
        0x76, 0x77, 0x78, 0x79, 0x7A, 0x83, 0x84, 0x85, 0x86, 0x87, 0x88, 0x89, 0x8A, 0x92,
        0x93, 0x94, 0x95, 0x96, 0x97, 0x98, 0x99, 0x9A, 0xA2, 0xA3, 0xA4, 0xA5, 0xA6, 0xA7,
        0xA8, 0xA9, 0xAA, 0xB2, 0xB3, 0xB4, 0xB5, 0xB6, 0xB7, 0xB8, 0xB9, 0xBA, 0xC2, 0xC3,
        0xC4, 0xC5, 0xC6, 0xC7, 0xC8, 0xC9, 0xCA, 0xD2, 0xD3, 0xD4, 0xD5, 0xD6, 0xD7, 0xD8,
        0xD9, 0xDA, 0xE1, 0xE2, 0xE3, 0xE4, 0xE5, 0xE6, 0xE7, 0xE8, 0xE9, 0xEA, 0xF1, 0xF2,
        0xF3, 0xF4, 0xF5, 0xF6, 0xF7, 0xF8, 0xF9, 0xFA,
    ]
}

/// The values of the table that Motion JPEG takes for granted for the AC
/// coefficients of chrominance.
pub open spec fn mjpeg_ac_chrominance_values() -> Seq<u8> {
    seq![
        0x00u8, 0x01, 0x02, 0x03, 0x11, 0x04, 0x05, 0x21, 0x31, 0x06, 0x12, 0x41, 0x51, 0x07,
        0x61, 0x71, 0x13, 0x22, 0x32, 0x81, 0x08, 0x14, 0x42, 0x91, 0xA1, 0xB1, 0xC1, 0x09,
        0x23, 0x33, 0x52, 0xF0, 0x15, 0x62, 0x72, 0xD1, 0x0A, 0x16, 0x24, 0x34, 0xE1, 0x25,
        0xF1, 0x17, 0x18, 0x19, 0x1A, 0x26, 0x27, 0x28, 0x29, 0x2A, 0x35, 0x36, 0x37, 0x38,
        0x39, 0x3A, 0x43, 0x44, 0x45, 0x46, 0x47, 0x48, 0x49, 0x4A, 0x53, 0x54, 0x55, 0x56,
        0x57, 0x58, 0x59, 0x5A, 0x63, 0x64, 0x65, 0x66, 0x67, 0x68, 0x69, 0x6A, 0x73, 0x74,
        0x75, 0x76, 0x77, 0x78, 0x79, 0x7A, 0x82, 0x83, 0x84, 0x85, 0x86, 0x87, 0x88, 0x89,
        0x8A, 0x92, 0x93, 0x94, 0x95, 0x96, 0x97, 0x98, 0x99, 0x9A, 0xA2, 0xA3, 0xA4, 0xA5,
        0xA6, 0xA7, 0xA8, 0xA9, 0xAA, 0xB2, 0xB3, 0xB4, 0xB5, 0xB6, 0xB7, 0xB8, 0xB9, 0xBA,
        0xC2, 0xC3, 0xC4, 0xC5, 0xC6, 0xC7, 0xC8, 0xC9, 0xCA, 0xD2, 0xD3, 0xD4, 0xD5, 0xD6,
        0xD7, 0xD8, 0xD9, 0xDA, 0xE2, 0xE3, 0xE4, 0xE5, 0xE6, 0xE7, 0xE8, 0xE9, 0xEA, 0xF2,
        0xF3, 0xF4, 0xF5, 0xF6, 0xF7, 0xF8, 0xF9, 0xFA,
    ]
}

/// Whether the slot holds a well-formed table: the one it held, or if it was
/// empty, the table with the given counts and values.
pub open spec fn default_filled(
    before: Option<HuffmanTable>,
    after: Option<HuffmanTable>,
    counts: Seq<u8>,
    values: Seq<u8>,
    is_ac: bool,
) -> bool {
    match before {
        Some(_) => after == before,
        None => after matches Some(table) && {
            &&& table.wf()
            &&& table.counts() == counts
            &&& table.values() == values
            &&& table.is_ac() == is_ac
        },
    }
}

/// The codes of the four tables of Motion JPEG fit, and the tables for DC
/// coefficients have 12 codes, those for AC coefficients 162.
proof fn lemma_mjpeg_counts_fit()
    ensures
        codes_fit(mjpeg_dc_luminance_counts()),
        codes_fit(mjpeg_dc_chrominance_counts()),
        codes_fit(mjpeg_ac_luminance_counts()),
        codes_fit(mjpeg_ac_chrominance_counts()),
        code_count(mjpeg_dc_luminance_counts()) == 12,
        code_count(mjpeg_dc_chrominance_counts()) == 12,
        code_count(mjpeg_ac_luminance_counts()) == 162,
        code_count(mjpeg_ac_chrominance_counts()) == 162,
{
    lemma_dc_luminance_fits();
    lemma_dc_chrominance_fits();
    lemma_ac_luminance_fits();
    lemma_ac_chrominance_fits();
    lemma_counts_fit(mjpeg_dc_luminance_counts());
    lemma_counts_fit(mjpeg_dc_chrominance_counts());
    lemma_counts_fit(mjpeg_ac_luminance_counts());
    lemma_counts_fit(mjpeg_ac_chrominance_counts());
}

proof fn lemma_dc_luminance_fits()
    ensures
        fits_up_to(mjpeg_dc_luminance_counts(), 16),
        code_count(mjpeg_dc_luminance_counts()) == 12,
{
    let counts = mjpeg_dc_luminance_counts();
    lemma2_to64();
    assert(fits_up_to(counts, 0));
    assert(first_code(counts, 1) == 0);
    assert(first_index(counts, 1) == 0);
    assert(fits_up_to(counts, 1));
    assert(first_code(counts, 2) == 0);
    assert(first_index(counts, 2) == 0);
    assert(fits_up_to(counts, 2));
    assert(first_code(counts, 3) == 2);
    assert(first_index(counts, 3) == 1);
    assert(fits_up_to(counts, 3));
    assert(first_code(counts, 4) == 14);
    assert(first_index(counts, 4) == 6);
    assert(fits_up_to(counts, 4));
    assert(first_code(counts, 5) == 30);
    assert(first_index(counts, 5) == 7);
    assert(fits_up_to(counts, 5));
    assert(first_code(counts, 6) == 62);
    assert(first_index(counts, 6) == 8);
    assert(fits_up_to(counts, 6));
    assert(first_code(counts, 7) == 126);
    assert(first_index(counts, 7) == 9);
    assert(fits_up_to(counts, 7));
    assert(first_code(counts, 8) == 254);
    assert(first_index(counts, 8) == 10);
    assert(fits_up_to(counts, 8));
    assert(first_code(counts, 9) == 510);
    assert(first_index(counts, 9) == 11);
    assert(fits_up_to(counts, 9));
    assert(first_code(counts, 10) == 1022);
    assert(first_index(counts, 10) == 12);
    assert(fits_up_to(counts, 10));
    assert(first_code(counts, 11) == 2044);
    assert(first_index(counts, 11) == 12);
    assert(fits_up_to(counts, 11));
    assert(first_code(counts, 12) == 4088);
    assert(first_index(counts, 12) == 12);
    assert(fits_up_to(counts, 12));
    assert(first_code(counts, 13) == 8176);
    assert(first_index(counts, 13) == 12);
    assert(fits_up_to(counts, 13));
    assert(first_code(counts, 14) == 16352);
    assert(first_index(counts, 14) == 12);
    assert(fits_up_to(counts, 14));
    assert(first_code(counts, 15) == 32704);
    assert(first_index(counts, 15) == 12);
    assert(fits_up_to(counts, 15));
    assert(first_code(counts, 16) == 65408);
    assert(first_index(counts, 16) == 12);
    assert(fits_up_to(counts, 16));
    assert(first_index(counts, 17) == 12);
}

proof fn lemma_dc_chrominance_fits()
    ensures
        fits_up_to(mjpeg_dc_chrominance_counts(), 16),
        code_count(mjpeg_dc_chrominance_counts()) == 12,
{
    let counts = mjpeg_dc_chrominance_counts();
    lemma2_to64();
    assert(fits_up_to(counts, 0));
    assert(first_code(counts, 1) == 0);
    assert(first_index(counts, 1) == 0);
    assert(fits_up_to(counts, 1));
    assert(first_code(counts, 2) == 0);
    assert(first_index(counts, 2) == 0);
    assert(fits_up_to(counts, 2));
    assert(first_code(counts, 3) == 6);
    assert(first_index(counts, 3) == 3);
    assert(fits_up_to(counts, 3));
    assert(first_code(counts, 4) == 14);
    assert(first_index(counts, 4) == 4);
    assert(fits_up_to(counts, 4));
    assert(first_code(counts, 5) == 30);
    assert(first_index(counts, 5) == 5);
    assert(fits_up_to(counts, 5));
    assert(first_code(counts, 6) == 62);
    assert(first_index(counts, 6) == 6);
    assert(fits_up_to(counts, 6));
    assert(first_code(counts, 7) == 126);
    assert(first_index(counts, 7) == 7);
    assert(fits_up_to(counts, 7));
    assert(first_code(counts, 8) == 254);
    assert(first_index(counts, 8) == 8);
    assert(fits_up_to(counts, 8));
    assert(first_code(counts, 9) == 510);
    assert(first_index(counts, 9) == 9);
    assert(fits_up_to(counts, 9));
    assert(first_code(counts, 10) == 1022);
    assert(first_index(counts, 10) == 10);
    assert(fits_up_to(counts, 10));
    assert(first_code(counts, 11) == 2046);
    assert(first_index(counts, 11) == 11);
    assert(fits_up_to(counts, 11));
    assert(first_code(counts, 12) == 4094);
    assert(first_index(counts, 12) == 12);
    assert(fits_up_to(counts, 12));
    assert(first_code(counts, 13) == 8188);
    assert(first_index(counts, 13) == 12);
    assert(fits_up_to(counts, 13));
    assert(first_code(counts, 14) == 16376);
    assert(first_index(counts, 14) == 12);
    assert(fits_up_to(counts, 14));
    assert(first_code(counts, 15) == 32752);
    assert(first_index(counts, 15) == 12);
    assert(fits_up_to(counts, 15));
    assert(first_code(counts, 16) == 65504);
    assert(first_index(counts, 16) == 12);
    assert(fits_up_to(counts, 16));
    assert(first_index(counts, 17) == 12);
}

proof fn lemma_ac_luminance_fits()
    ensures
        fits_up_to(mjpeg_ac_luminance_counts(), 16),
        code_count(mjpeg_ac_luminance_counts()) == 162,
{
    let counts = mjpeg_ac_luminance_counts();
    lemma2_to64();
    assert(fits_up_to(counts, 0));
    assert(first_code(counts, 1) == 0);
    assert(first_index(counts, 1) == 0);
    assert(fits_up_to(counts, 1));
    assert(first_code(counts, 2) == 0);
    assert(first_index(counts, 2) == 0);
    assert(fits_up_to(counts, 2));
    assert(first_code(counts, 3) == 4);
    assert(first_index(counts, 3) == 2);
    assert(fits_up_to(counts, 3));
    assert(first_code(counts, 4) == 10);
    assert(first_index(counts, 4) == 3);
    assert(fits_up_to(counts, 4));
    assert(first_code(counts, 5) == 26);
    assert(first_index(counts, 5) == 6);
    assert(fits_up_to(counts, 5));
    assert(first_code(counts, 6) == 58);
    assert(first_index(counts, 6) == 9);
    assert(fits_up_to(counts, 6));
    assert(first_code(counts, 7) == 120);
    assert(first_index(counts, 7) == 11);
    assert(fits_up_to(counts, 7));
    assert(first_code(counts, 8) == 248);
    assert(first_index(counts, 8) == 15);
    assert(fits_up_to(counts, 8));
    assert(first_code(counts, 9) == 502);
    assert(first_index(counts, 9) == 18);
    assert(fits_up_to(counts, 9));
    assert(first_code(counts, 10) == 1014);
    assert(first_index(counts, 10) == 23);
    assert(fits_up_to(counts, 10));
    assert(first_code(counts, 11) == 2038);
    assert(first_index(counts, 11) == 28);
    assert(fits_up_to(counts, 11));
    assert(first_code(counts, 12) == 4084);
    assert(first_index(counts, 12) == 32);
    assert(fits_up_to(counts, 12));
    assert(first_code(counts, 13) == 8176);
    assert(first_index(counts, 13) == 36);
    assert(fits_up_to(counts, 13));
    assert(first_code(counts, 14) == 16352);
    assert(first_index(counts, 14) == 36);
    assert(fits_up_to(counts, 14));
    assert(first_code(counts, 15) == 32704);
    assert(first_index(counts, 15) == 36);
    assert(fits_up_to(counts, 15));
    assert(first_code(counts, 16) == 65410);
    assert(first_index(counts, 16) == 37);
    assert(fits_up_to(counts, 16));
    assert(first_index(counts, 17) == 162);
}

proof fn lemma_ac_chrominance_fits()
    ensures
        fits_up_to(mjpeg_ac_chrominance_counts(), 16),
        code_count(mjpeg_ac_chrominance_counts()) == 162,
{
    let counts = mjpeg_ac_chrominance_counts();
    lemma2_to64();
    assert(fits_up_to(counts, 0));
    assert(first_code(counts, 1) == 0);
    assert(first_index(counts, 1) == 0);
    assert(fits_up_to(counts, 1));
    assert(first_code(counts, 2) == 0);
    assert(first_index(counts, 2) == 0);
    assert(fits_up_to(counts, 2));
    assert(first_code(counts, 3) == 4);
    assert(first_index(counts, 3) == 2);
    assert(fits_up_to(counts, 3));
    assert(first_code(counts, 4) == 10);
    assert(first_index(counts, 4) == 3);
    assert(fits_up_to(counts, 4));
    assert(first_code(counts, 5) == 24);
    assert(first_index(counts, 5) == 5);
    assert(fits_up_to(counts, 5));
    assert(first_code(counts, 6) == 56);
    assert(first_index(counts, 6) == 9);
    assert(fits_up_to(counts, 6));
    assert(first_code(counts, 7) == 120);
    assert(first_index(counts, 7) == 13);
    assert(fits_up_to(counts, 7));
    assert(first_code(counts, 8) == 246);
    assert(first_index(counts, 8) == 16);
    assert(fits_up_to(counts, 8));
    assert(first_code(counts, 9) == 500);
    assert(first_index(counts, 9) == 20);
    assert(fits_up_to(counts, 9));
    assert(first_code(counts, 10) == 1014);
    assert(first_index(counts, 10) == 27);
    assert(fits_up_to(counts, 10));
    assert(first_code(counts, 11) == 2038);
    assert(first_index(counts, 11) == 32);
    assert(fits_up_to(counts, 11));
    assert(first_code(counts, 12) == 4084);
    assert(first_index(counts, 12) == 36);
    assert(fits_up_to(counts, 12));
    assert(first_code(counts, 13) == 8176);
    assert(first_index(counts, 13) == 40);
    assert(fits_up_to(counts, 13));
    assert(first_code(counts, 14) == 16352);
    assert(first_index(counts, 14) == 40);
    assert(fits_up_to(counts, 14));
    assert(first_code(counts, 15) == 32706);
    assert(first_index(counts, 15) == 41);
    assert(fits_up_to(counts, 15));
    assert(first_code(counts, 16) == 65416);
    assert(first_index(counts, 16) == 43);
    assert(fits_up_to(counts, 16));
    assert(first_index(counts, 17) == 162);
}

/// Counts whose codes fit length by length have codes that fit.
proof fn lemma_counts_fit(counts: Seq<u8>)
    requires
        counts.len() == 16,
        fits_up_to(counts, 16),
    ensures
        codes_fit(counts),
{
    assert forall|len: nat| 1 <= len <= 16 implies #[trigger] first_code(counts, len) + counts[len
        - 1] <= pow2(len) by {
        lemma_fits_up_to(counts, 16, len);
    }
}

/// Whether the codes of the lengths up to `limit` fit.
spec fn fits_up_to(counts: Seq<u8>, limit: nat) -> bool
    decreases limit,
{
    if limit == 0 {
        true
    } else {
        fits_up_to(counts, (limit - 1) as nat) && first_code(counts, limit) + counts[limit - 1]
            <= pow2(limit)
    }
}

proof fn lemma_fits_up_to(counts: Seq<u8>, limit: nat, len: nat)
    requires
        fits_up_to(counts, limit),
        1 <= len <= limit,
    ensures
        first_code(counts, len) + counts[len - 1] <= pow2(len),
    decreases limit,
{
    if len < limit {
        lemma_fits_up_to(counts, (limit - 1) as nat, len);
    }
}

fn install_default(
    tables: &mut Vec<Option<HuffmanTable>>,
    index: usize,
    bits: &[u8; 16],
    values: Vec<u8>,
    class: HuffmanTableClass,
)
    requires
        old(tables)@.len() == 4,
        index < 4,
        forall|i: int| 0 <= i < 4 ==> (#[trigger] old(tables)@[i] matches Some(table) ==> table.wf()),
        codes_fit(bits@),
        values@.len() == code_count(bits@),
    ensures
        final(tables)@.len() == 4,
        forall|i: int| 0 <= i < 4 ==> (#[trigger] final(tables)@[i] matches Some(table) ==> table.wf()),
        forall|i: int| 0 <= i < 4 && i != index ==> final(tables)@[i] == old(tables)@[i],
        default_filled(
            old(tables)@[index as int],
            final(tables)@[index as int],
            bits@,
            values@,
            class == HuffmanTableClass::AC,
        ),
{
    if tables[index].is_none() {
        match HuffmanTable::new(bits, values.as_slice(), class) {
            Ok(table) => {
                tables[index] = Some(table);
            },
            Err(_) => {},
        }
    }
}

/// Fills the first two slots of each kind, where they are empty, with the
/// tables that Motion JPEG takes for granted: its frames carry none.
pub fn fill_default_mjpeg_tables(
    scan: &ScanInfo,
    dc_huffman_tables: &mut Vec<Option<HuffmanTable>>,
    ac_huffman_tables: &mut Vec<Option<HuffmanTable>>,
)
    requires
        old(dc_huffman_tables)@.len() == 4,
        old(ac_huffman_tables)@.len() == 4,
        forall|i: int|
            0 <= i < 4 ==> (#[trigger] old(dc_huffman_tables)@[i] matches Some(table)
                ==> table.wf()),
        forall|i: int|
            0 <= i < 4 ==> (#[trigger] old(ac_huffman_tables)@[i] matches Some(table)
                ==> table.wf()),
    ensures
        final(dc_huffman_tables)@.len() == 4,
        final(ac_huffman_tables)@.len() == 4,
        forall|i: int|
            0 <= i < 4 ==> (#[trigger] final(dc_huffman_tables)@[i] matches Some(table)
                ==> table.wf()),
        forall|i: int|
            0 <= i < 4 ==> (#[trigger] final(ac_huffman_tables)@[i] matches Some(table)
                ==> table.wf()),
        forall|i: int|
            2 <= i < 4 ==> final(dc_huffman_tables)@[i] == old(dc_huffman_tables)@[i] && final(ac_huffman_tables)@[i] == old(ac_huffman_tables)@[i],
        default_filled(
            old(dc_huffman_tables)@[0],
            final(dc_huffman_tables)@[0],
            mjpeg_dc_luminance_counts(),
            mjpeg_dc_values(),
            false,
        ),
        default_filled(
            old(dc_huffman_tables)@[1],
            final(dc_huffman_tables)@[1],
            mjpeg_dc_chrominance_counts(),
            mjpeg_dc_values(),
            false,
        ),
        default_filled(
            old(ac_huffman_tables)@[0],
            final(ac_huffman_tables)@[0],
            mjpeg_ac_luminance_counts(),
            mjpeg_ac_luminance_values(),
            true,
        ),
        default_filled(
            old(ac_huffman_tables)@[1],
            final(ac_huffman_tables)@[1],
            mjpeg_ac_chrominance_counts(),
            mjpeg_ac_chrominance_values(),
            true,
        ),
{
    let dc_values: Vec<u8> = vec![
        0x00, 0x01, 0x02, 0x03, 0x04, 0x05, 0x06, 0x07, 0x08, 0x09, 0x0A, 0x0B,
    ];
    let dc_values_again: Vec<u8> = vec![
        0x00, 0x01, 0x02, 0x03, 0x04, 0x05, 0x06, 0x07, 0x08, 0x09, 0x0A, 0x0B,
    ];
    let dc_luminance: [u8; 16] = [0, 1, 5, 1, 1, 1, 1, 1, 1, 0, 0, 0, 0, 0, 0, 0];
    let dc_chrominance: [u8; 16] = [0, 3, 1, 1, 1, 1, 1, 1, 1, 1, 1, 0, 0, 0, 0, 0];
    let ac_luminance: [u8; 16] = [0, 2, 1, 3, 3, 2, 4, 3, 5, 5, 4, 4, 0, 0, 1, 0x7D];
    let ac_chrominance: [u8; 16] = [0, 2, 1, 2, 4, 4, 3, 4, 7, 5, 4, 4, 0, 1, 2, 0x77];
    let ac_luminance_values: Vec<u8> = vec![
        0x01, 0x02, 0x03, 0x00, 0x04, 0x11, 0x05, 0x12, 0x21, 0x31, 0x41, 0x06, 0x13, 0x51, 0x61,
        0x07, 0x22, 0x71, 0x14, 0x32, 0x81, 0x91, 0xA1, 0x08, 0x23, 0x42, 0xB1, 0xC1, 0x15, 0x52,
        0xD1, 0xF0, 0x24, 0x33, 0x62, 0x72, 0x82, 0x09, 0x0A, 0x16, 0x17, 0x18, 0x19, 0x1A, 0x25,
        0x26, 0x27, 0x28, 0x29, 0x2A, 0x34, 0x35, 0x36, 0x37, 0x38, 0x39, 0x3A, 0x43, 0x44, 0x45,
        0x46, 0x47, 0x48, 0x49, 0x4A, 0x53, 0x54, 0x55, 0x56, 0x57, 0x58, 0x59, 0x5A, 0x63, 0x64,
        0x65, 0x66, 0x67, 0x68, 0x69, 0x6A, 0x73, 0x74, 0x75, 0x76, 0x77, 0x78, 0x79, 0x7A, 0x83,
        0x84, 0x85, 0x86, 0x87, 0x88, 0x89, 0x8A, 0x92, 0x93, 0x94, 0x95, 0x96, 0x97, 0x98, 0x99,
        0x9A, 0xA2, 0xA3, 0xA4, 0xA5, 0xA6, 0xA7, 0xA8, 0xA9, 0xAA, 0xB2, 0xB3, 0xB4, 0xB5, 0xB6,
        0xB7, 0xB8, 0xB9, 0xBA, 0xC2, 0xC3, 0xC4, 0xC5, 0xC6, 0xC7, 0xC8, 0xC9, 0xCA, 0xD2, 0xD3,
        0xD4, 0xD5, 0xD6, 0xD7, 0xD8, 0xD9, 0xDA, 0xE1, 0xE2, 0xE3, 0xE4, 0xE5, 0xE6, 0xE7, 0xE8,
        0xE9, 0xEA, 0xF1, 0xF2, 0xF3, 0xF4, 0xF5, 0xF6, 0xF7, 0xF8, 0xF9, 0xFA,
    ];
    let ac_chrominance_values: Vec<u8> = vec![
        0x00, 0x01, 0x02, 0x03, 0x11, 0x04, 0x05, 0x21, 0x31, 0x06, 0x12, 0x41, 0x51, 0x07, 0x61,
        0x71, 0x13, 0x22, 0x32, 0x81, 0x08, 0x14, 0x42, 0x91, 0xA1, 0xB1, 0xC1, 0x09, 0x23, 0x33,
        0x52, 0xF0, 0x15, 0x62, 0x72, 0xD1, 0x0A, 0x16, 0x24, 0x34, 0xE1, 0x25, 0xF1, 0x17, 0x18,
        0x19, 0x1A, 0x26, 0x27, 0x28, 0x29, 0x2A, 0x35, 0x36, 0x37, 0x38, 0x39, 0x3A, 0x43, 0x44,
        0x45, 0x46, 0x47, 0x48, 0x49, 0x4A, 0x53, 0x54, 0x55, 0x56, 0x57, 0x58, 0x59, 0x5A, 0x63,
        0x64, 0x65, 0x66, 0x67, 0x68, 0x69, 0x6A, 0x73, 0x74, 0x75, 0x76, 0x77, 0x78, 0x79, 0x7A,
        0x82, 0x83, 0x84, 0x85, 0x86, 0x87, 0x88, 0x89, 0x8A, 0x92, 0x93, 0x94, 0x95, 0x96, 0x97,
        0x98, 0x99, 0x9A, 0xA2, 0xA3, 0xA4, 0xA5, 0xA6, 0xA7, 0xA8, 0xA9, 0xAA, 0xB2, 0xB3, 0xB4,
        0xB5, 0xB6, 0xB7, 0xB8, 0xB9, 0xBA, 0xC2, 0xC3, 0xC4, 0xC5, 0xC6, 0xC7, 0xC8, 0xC9, 0xCA,
        0xD2, 0xD3, 0xD4, 0xD5, 0xD6, 0xD7, 0xD8, 0xD9, 0xDA, 0xE2, 0xE3, 0xE4, 0xE5, 0xE6, 0xE7,
        0xE8, 0xE9, 0xEA, 0xF2, 0xF3, 0xF4, 0xF5, 0xF6, 0xF7, 0xF8, 0xF9, 0xFA,
    ];
    proof {
        assert(dc_luminance@ =~= mjpeg_dc_luminance_counts());
        assert(dc_chrominance@ =~= mjpeg_dc_chrominance_counts());
        assert(ac_luminance@ =~= mjpeg_ac_luminance_counts());
        assert(ac_chrominance@ =~= mjpeg_ac_chrominance_counts());
        assert(dc_values@ =~= mjpeg_dc_values());
        assert(dc_values_again@ =~= mjpeg_dc_values());
        assert(ac_luminance_values@ =~= mjpeg_ac_luminance_values());
        assert(ac_chrominance_values@ =~= mjpeg_ac_chrominance_values());
        lemma_mjpeg_counts_fit();
    }
    install_default(dc_huffman_tables, 0, &dc_luminance, dc_values, HuffmanTableClass::DC);
    install_default(dc_huffman_tables, 1, &dc_chrominance, dc_values_again, HuffmanTableClass::DC);
    install_default(ac_huffman_tables, 0, &ac_luminance, ac_luminance_values, HuffmanTableClass::AC);
    install_default(
        ac_huffman_tables,
        1,
        &ac_chrominance,
        ac_chrominance_values,
        HuffmanTableClass::AC,
    );
}

} // verus!
