pub mod bytes;
pub mod calendar;
pub mod decimal_eq;
pub mod dictionary;
pub mod dispatch;
pub mod fixed;
pub mod interner;
pub mod lex;
pub mod temporal;

use vstd::prelude::*;

verus! {

/// The unit of a temporal column's integer values.
#[derive(Clone, Copy, PartialEq, Eq, Structural, Debug)]
pub enum TimeUnit {
    Second,
    Millisecond,
    Microsecond,
    Nanosecond,
}

/// The unit of an interval column's values.
#[derive(Clone, Copy, PartialEq, Eq, Structural, Debug)]
pub enum IntervalUnit {
    YearMonth,
    DayTime,
    MonthDayNano,
}

/// The closed set of scalar column types the codec knows; decimals carry
/// their precision and scale.
#[derive(Clone, Copy, PartialEq, Eq, Structural, Debug)]
pub enum DataType {
    Null,
    Boolean,
    Int8,
    Int16,
    Int32,
    Int64,
    UInt8,
    UInt16,
    UInt32,
    UInt64,
    Float16,
    Float32,
    Float64,
    Timestamp(TimeUnit),
    Date32,
    Date64,
    Time32(TimeUnit),
    Time64(TimeUnit),
    Duration(TimeUnit),
    Interval(IntervalUnit),
    Binary,
    Utf8,
    Decimal128(u8, u8),
    Decimal256(u8, u8),
}

/// How a column orders its values and where its nulls sort.
#[derive(Clone, Copy, PartialEq, Eq, Structural, Debug)]
pub struct SortOptions {
    pub descending: bool,
    pub nulls_first: bool,
}

/// The single byte written in place of a null field, chosen so that rows with
/// a null in this column sort to the requested end under unsigned
/// lexicographic comparison of the encoded rows.
pub open spec fn null_sentinel_spec(opts: SortOptions) -> u8 {
    if opts.nulls_first {
        0u8
    } else {
        0xffu8
    }
}

pub fn null_sentinel(opts: SortOptions) -> (r: u8)
    ensures
        r == null_sentinel_spec(opts),
{
    if opts.nulls_first {
        0
    } else {
        0xff
    }
}

/// Everything the codec reports to its caller; no operation panics.
#[derive(Clone, Copy, PartialEq, Eq, Structural, Debug)]
pub enum CodecError {
    /// A column or dictionary value type has no codec.
    UnsupportedType,
    /// Decoding found more distinct dictionary values than the key type can index.
    DictionaryKeyOverflow,
    /// A row slice ended early, or a validity byte was neither `0x01` nor the
    /// null sentinel after descending re-inversion.
    MalformedRow,
    /// A normalized key retrieved during decode was never interned; the caller
    /// supplied the wrong interner.
    InternerInvariantViolation,
}

/// A packed byte arena holding every encoded row, framed by per-row offsets.
///
/// While columns are being appended, `offsets[i + 1]` is the write cursor of
/// row `i`; once all columns are in, `offsets[i]` is the start of row `i` and
/// `offsets[row_count]` the total length.
pub struct Rows {
    pub buffer: Vec<u8>,
    pub offsets: Vec<usize>,
}

/// The total length of the first `k` rows.
pub open spec fn sum_lens(lens: Seq<usize>, k: int) -> int
    decreases k,
{
    if k <= 0 {
        0
    } else {
        sum_lens(lens, k - 1) + lens[k - 1]
    }
}

impl Rows {
    /// Allocates an arena for `row_lengths.len()` rows of the given byte
    /// lengths, with every cursor placed at its row's start.
    pub fn new(row_lengths: &Vec<usize>) -> (r: Rows)
        requires
            sum_lens(row_lengths@, row_lengths@.len() as int) <= usize::MAX,
        ensures
            r.offsets@.len() == row_lengths@.len() + 1,
            r.offsets@[0] == 0,
            forall|i: int|
                0 <= i < row_lengths@.len() ==> r.offsets@[i + 1] == sum_lens(row_lengths@, i),
            r.buffer@.len() == sum_lens(row_lengths@, row_lengths@.len() as int),
            forall|k: int| 0 <= k < r.buffer@.len() ==> r.buffer@[k] == 0u8,
    {
        let n = row_lengths.len();
        let mut offsets: Vec<usize> = Vec::new();
        offsets.push(0);
        let mut total: usize = 0;
        let mut i: usize = 0;
        proof {
            lemma_sum_lens_monotone(row_lengths@, 0, row_lengths@.len() as int);
        }
        while i < n
            invariant
                0 <= i <= n,
                n == row_lengths@.len(),
                total == sum_lens(row_lengths@, i as int),
                sum_lens(row_lengths@, n as int) <= usize::MAX,
                offsets@.len() == i + 1,
                offsets@[0] == 0,
                forall|j: int| 0 <= j < i ==> offsets@[j + 1] == sum_lens(row_lengths@, j),
            decreases n - i,
        {
            proof {
                lemma_sum_lens_monotone(row_lengths@, i + 1, n as int);
            }
            offsets.push(total);
            total = total + row_lengths[i];
            i = i + 1;
        }
        let mut buffer: Vec<u8> = Vec::new();
        let mut k: usize = 0;
        while k < total
            invariant
                0 <= k <= total,
                total == sum_lens(row_lengths@, row_lengths@.len() as int),
                buffer@.len() == k,
                forall|j: int| 0 <= j < k ==> buffer@[j] == 0u8,
            decreases total - k,
        {
            buffer.push(0);
            k = k + 1;
        }
        Rows { buffer, offsets }
    }
}

/// Row-length prefix sums never shrink as more rows are taken in.
pub proof fn lemma_sum_lens_monotone(lens: Seq<usize>, a: int, b: int)
    requires
        0 <= a <= b,
    ensures
        sum_lens(lens, a) <= sum_lens(lens, b),
    decreases b - a,
{
    if a < b {
        lemma_sum_lens_monotone(lens, a, b - 1);
    }
}

} // verus!
