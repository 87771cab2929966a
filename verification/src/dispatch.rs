use vstd::prelude::*;
use crate::fixed::{
    decode_decimal, decode_primitive, decimal_cell_parse, fixed_cell_parse, value_or_zero,
    DecimalColumn, FixedLengthEncoding, Float16Bits, Float32Bits, Float64Bits, PrimitiveColumn,
};
use crate::{CodecError, DataType, IntervalUnit, SortOptions, TimeUnit};

verus! {

/// A decoded non-dictionary column, one variant per physical layout;
/// temporal values sit in the integer column of their width.
pub enum DecodedColumn {
    Boolean(PrimitiveColumn<bool>),
    Int8(PrimitiveColumn<i8>),
    Int16(PrimitiveColumn<i16>),
    Int32(PrimitiveColumn<i32>),
    Int64(PrimitiveColumn<i64>),
    Int128(PrimitiveColumn<i128>),
    UInt8(PrimitiveColumn<u8>),
    UInt16(PrimitiveColumn<u16>),
    UInt32(PrimitiveColumn<u32>),
    UInt64(PrimitiveColumn<u64>),
    Float16(PrimitiveColumn<Float16Bits>),
    Float32(PrimitiveColumn<Float32Bits>),
    Float64(PrimitiveColumn<Float64Bits>),
    Decimal128(DecimalColumn<16>),
    Decimal256(DecimalColumn<32>),
}

/// Whether a column type has a fixed-width row codec; strings, binary and
/// nulls travel through dictionaries instead.
pub open spec fn column_supported(dt: DataType) -> bool {
    match dt {
        DataType::Null => false,
        DataType::Binary => false,
        DataType::Utf8 => false,
        DataType::Time32(TimeUnit::Microsecond) => false,
        DataType::Time32(TimeUnit::Nanosecond) => false,
        DataType::Time64(TimeUnit::Second) => false,
        DataType::Time64(TimeUnit::Millisecond) => false,
        _ => true,
    }
}

/// Every row holds a parsable cell of `T` at its cursor.
pub open spec fn all_cells_parse<T: FixedLengthEncoding>(
    rows: Seq<Vec<u8>>,
    pos: Seq<usize>,
    opts: SortOptions,
) -> bool {
    forall|i: int|
        0 <= i < rows.len() ==> fixed_cell_parse::<T>(
            #[trigger] rows[i]@.skip(pos[i] as int),
            opts,
        ) is Some
}

/// Every row holds a parsable decimal cell of `n` payload bytes.
pub open spec fn all_decimal_cells_parse(
    rows: Seq<Vec<u8>>,
    pos: Seq<usize>,
    opts: SortOptions,
    n: nat,
) -> bool {
    forall|i: int|
        0 <= i < rows.len() ==> decimal_cell_parse(
            #[trigger] rows[i]@.skip(pos[i] as int),
            opts,
            n,
        ) is Some
}

/// Whether every row parses for the codec the column type selects.
pub open spec fn column_parses(
    dt: DataType,
    rows: Seq<Vec<u8>>,
    pos: Seq<usize>,
    opts: SortOptions,
) -> bool {
    match dt {
        DataType::Boolean => all_cells_parse::<bool>(rows, pos, opts),
        DataType::Int8 => all_cells_parse::<i8>(rows, pos, opts),
        DataType::Int16 => all_cells_parse::<i16>(rows, pos, opts),
        DataType::Int32 => all_cells_parse::<i32>(rows, pos, opts),
        DataType::Int64 => all_cells_parse::<i64>(rows, pos, opts),
        DataType::UInt8 => all_cells_parse::<u8>(rows, pos, opts),
        DataType::UInt16 => all_cells_parse::<u16>(rows, pos, opts),
        DataType::UInt32 => all_cells_parse::<u32>(rows, pos, opts),
        DataType::UInt64 => all_cells_parse::<u64>(rows, pos, opts),
        DataType::Float16 => all_cells_parse::<Float16Bits>(rows, pos, opts),
        DataType::Float32 => all_cells_parse::<Float32Bits>(rows, pos, opts),
        DataType::Float64 => all_cells_parse::<Float64Bits>(rows, pos, opts),
        DataType::Timestamp(_) => all_cells_parse::<i64>(rows, pos, opts),
        DataType::Date32 => all_cells_parse::<i32>(rows, pos, opts),
        DataType::Date64 => all_cells_parse::<i64>(rows, pos, opts),
        DataType::Time32(TimeUnit::Second) => all_cells_parse::<i32>(rows, pos, opts),
        DataType::Time32(TimeUnit::Millisecond) => all_cells_parse::<i32>(rows, pos, opts),
        DataType::Time64(TimeUnit::Microsecond) => all_cells_parse::<i64>(rows, pos, opts),
        DataType::Time64(TimeUnit::Nanosecond) => all_cells_parse::<i64>(rows, pos, opts),
        DataType::Duration(_) => all_cells_parse::<i64>(rows, pos, opts),
        DataType::Interval(IntervalUnit::YearMonth) => all_cells_parse::<i32>(rows, pos, opts),
        DataType::Interval(IntervalUnit::DayTime) => all_cells_parse::<i64>(rows, pos, opts),
        DataType::Interval(IntervalUnit::MonthDayNano) => all_cells_parse::<i128>(
            rows,
            pos,
            opts,
        ),
        DataType::Decimal128(_, _) => all_decimal_cells_parse(rows, pos, opts, 16),
        DataType::Decimal256(_, _) => all_decimal_cells_parse(rows, pos, opts, 32),
        _ => false,
    }
}

/// The column decoded from these rows: per row, the parsed value (the
/// type's zero for nulls), the validity flag, and the cursor advanced past
/// the cell.
pub open spec fn primitive_column_matches<T: FixedLengthEncoding>(
    rows: Seq<Vec<u8>>,
    pos0: Seq<usize>,
    opts: SortOptions,
    col: PrimitiveColumn<T>,
    pos1: Seq<usize>,
) -> bool {
    &&& col.values@.len() == rows.len()
    &&& col.valid@.len() == rows.len()
    &&& pos1.len() == rows.len()
    &&& forall|i: int|
        #![trigger rows[i]]
        0 <= i < rows.len() ==> {
            let vc = fixed_cell_parse::<T>(rows[i]@.skip(pos0[i] as int), opts)->0;
            &&& col.values@[i] == value_or_zero(vc.0)
            &&& col.valid@[i] == (vc.0 is Some)
            &&& pos1[i] == pos0[i] + vc.1
        }
}

/// The decimal column decoded from these rows, with the caller's precision
/// and scale carried through.
pub open spec fn decimal_column_matches<const N: usize>(
    rows: Seq<Vec<u8>>,
    pos0: Seq<usize>,
    opts: SortOptions,
    col: DecimalColumn<N>,
    pos1: Seq<usize>,
    precision: u8,
    scale: u8,
) -> bool {
    &&& col.precision == precision
    &&& col.scale == scale
    &&& col.values@.len() == rows.len()
    &&& col.valid@.len() == rows.len()
    &&& pos1.len() == rows.len()
    &&& forall|i: int|
        #![trigger rows[i]]
        0 <= i < rows.len() ==> {
            let vc = decimal_cell_parse(rows[i]@.skip(pos0[i] as int), opts, N as nat)->0;
            &&& (vc.0 is Some ==> col.values@[i].0@ == vc.0->0)
            &&& col.values@[i].wf()
            &&& (vc.0 is None ==> col.values@[i].value_spec() == 0)
            &&& col.valid@[i] == (vc.0 is Some)
            &&& pos1[i] == pos0[i] + vc.1
        }
}

/// Which decoded column a supported type produces: the variant of its
/// physical layout, filled as `primitive_column_matches` says.
pub open spec fn column_matches(
    dt: DataType,
    rows: Seq<Vec<u8>>,
    pos0: Seq<usize>,
    opts: SortOptions,
    c: DecodedColumn,
    pos1: Seq<usize>,
) -> bool {
    match dt {
        DataType::Boolean => c matches DecodedColumn::Boolean(col) && primitive_column_matches(
            rows,
            pos0,
            opts,
            col,
            pos1,
        ),
        DataType::Int8 => c matches DecodedColumn::Int8(col) && primitive_column_matches(
            rows,
            pos0,
            opts,
            col,
            pos1,
        ),
        DataType::Int16 => c matches DecodedColumn::Int16(col) && primitive_column_matches(
            rows,
            pos0,
            opts,
            col,
            pos1,
        ),
        DataType::Int32 => c matches DecodedColumn::Int32(col) && primitive_column_matches(
            rows,
            pos0,
            opts,
            col,
            pos1,
        ),
        DataType::Int64 => c matches DecodedColumn::Int64(col) && primitive_column_matches(
            rows,
            pos0,
            opts,
            col,
            pos1,
        ),
        DataType::UInt8 => c matches DecodedColumn::UInt8(col) && primitive_column_matches(
            rows,
            pos0,
            opts,
            col,
            pos1,
        ),
        DataType::UInt16 => c matches DecodedColumn::UInt16(col) && primitive_column_matches(
            rows,
            pos0,
            opts,
            col,
            pos1,
        ),
        DataType::UInt32 => c matches DecodedColumn::UInt32(col) && primitive_column_matches(
            rows,
            pos0,
            opts,
            col,
            pos1,
        ),
        DataType::UInt64 => c matches DecodedColumn::UInt64(col) && primitive_column_matches(
            rows,
            pos0,
            opts,
            col,
            pos1,
        ),
        DataType::Float16 => c matches DecodedColumn::Float16(col) && primitive_column_matches(
            rows,
            pos0,
            opts,
            col,
            pos1,
        ),
        DataType::Float32 => c matches DecodedColumn::Float32(col) && primitive_column_matches(
            rows,
            pos0,
            opts,
            col,
            pos1,
        ),
        DataType::Float64 => c matches DecodedColumn::Float64(col) && primitive_column_matches(
            rows,
            pos0,
            opts,
            col,
            pos1,
        ),
        DataType::Timestamp(_) => c matches DecodedColumn::Int64(col) && primitive_column_matches(
            rows,
            pos0,
            opts,
            col,
            pos1,
        ),
        DataType::Date32 => c matches DecodedColumn::Int32(col) && primitive_column_matches(
            rows,
            pos0,
            opts,
            col,
            pos1,
        ),
        DataType::Date64 => c matches DecodedColumn::Int64(col) && primitive_column_matches(
            rows,
            pos0,
            opts,
            col,
            pos1,
        ),
        DataType::Time32(TimeUnit::Second) => c matches DecodedColumn::Int32(col)
            && primitive_column_matches(rows, pos0, opts, col, pos1),
        DataType::Time32(TimeUnit::Millisecond) => c matches DecodedColumn::Int32(col)
            && primitive_column_matches(rows, pos0, opts, col, pos1),
        DataType::Time64(TimeUnit::Microsecond) => c matches DecodedColumn::Int64(col)
            && primitive_column_matches(rows, pos0, opts, col, pos1),
        DataType::Time64(TimeUnit::Nanosecond) => c matches DecodedColumn::Int64(col)
            && primitive_column_matches(rows, pos0, opts, col, pos1),
        DataType::Duration(_) => c matches DecodedColumn::Int64(col) && primitive_column_matches(
            rows,
            pos0,
            opts,
            col,
            pos1,
        ),
        DataType::Interval(IntervalUnit::YearMonth) => c matches DecodedColumn::Int32(col)
            && primitive_column_matches(rows, pos0, opts, col, pos1),
        DataType::Interval(IntervalUnit::DayTime) => c matches DecodedColumn::Int64(col)
            && primitive_column_matches(rows, pos0, opts, col, pos1),
        DataType::Interval(IntervalUnit::MonthDayNano) => c matches DecodedColumn::Int128(col)
            && primitive_column_matches(rows, pos0, opts, col, pos1),
        DataType::Decimal128(p, sc) => c matches DecodedColumn::Decimal128(col)
            && decimal_column_matches(rows, pos0, opts, col, pos1, p, sc),
        DataType::Decimal256(p, sc) => c matches DecodedColumn::Decimal256(col)
            && decimal_column_matches(rows, pos0, opts, col, pos1, p, sc),
        _ => false,
    }
}

fn col_bool(rows: &Vec<Vec<u8>>, pos: &mut Vec<usize>, opts: SortOptions) -> (r: Result<
    DecodedColumn,
    CodecError,
>)
    requires
        old(pos)@.len() == rows@.len(),
        forall|i: int| 0 <= i < rows@.len() ==> old(pos)@[i] <= rows@[i]@.len(),
    ensures
        r is Ok <==> all_cells_parse::<bool>(rows@, old(pos)@, opts),
        r is Err ==> r == Err::<DecodedColumn, CodecError>(CodecError::MalformedRow),
        r matches Ok(c) ==> (c matches DecodedColumn::Boolean(col) && primitive_column_matches(
            rows@,
            old(pos)@,
            opts,
            col,
            final(pos)@,
        )),
{
    match decode_primitive::<bool>(rows, pos, opts) {
        Ok(c) => Ok(DecodedColumn::Boolean(c)),
        Err(e) => Err(e),
    }
}

fn col_i8(rows: &Vec<Vec<u8>>, pos: &mut Vec<usize>, opts: SortOptions) -> (r: Result<
    DecodedColumn,
    CodecError,
>)
    requires
        old(pos)@.len() == rows@.len(),
        forall|i: int| 0 <= i < rows@.len() ==> old(pos)@[i] <= rows@[i]@.len(),
    ensures
        r is Ok <==> all_cells_parse::<i8>(rows@, old(pos)@, opts),
        r is Err ==> r == Err::<DecodedColumn, CodecError>(CodecError::MalformedRow),
        r matches Ok(c) ==> (c matches DecodedColumn::Int8(col) && primitive_column_matches(
            rows@,
            old(pos)@,
            opts,
            col,
            final(pos)@,
        )),
{
    match decode_primitive::<i8>(rows, pos, opts) {
        Ok(c) => Ok(DecodedColumn::Int8(c)),
        Err(e) => Err(e),
    }
}

fn col_i16(rows: &Vec<Vec<u8>>, pos: &mut Vec<usize>, opts: SortOptions) -> (r: Result<
    DecodedColumn,
    CodecError,
>)
    requires
        old(pos)@.len() == rows@.len(),
        forall|i: int| 0 <= i < rows@.len() ==> old(pos)@[i] <= rows@[i]@.len(),
    ensures
        r is Ok <==> all_cells_parse::<i16>(rows@, old(pos)@, opts),
        r is Err ==> r == Err::<DecodedColumn, CodecError>(CodecError::MalformedRow),
        r matches Ok(c) ==> (c matches DecodedColumn::Int16(col) && primitive_column_matches(
            rows@,
            old(pos)@,
            opts,
            col,
            final(pos)@,
        )),
{
    match decode_primitive::<i16>(rows, pos, opts) {
        Ok(c) => Ok(DecodedColumn::Int16(c)),
        Err(e) => Err(e),
    }
}

fn col_i32(rows: &Vec<Vec<u8>>, pos: &mut Vec<usize>, opts: SortOptions) -> (r: Result<
    DecodedColumn,
    CodecError,
>)
    requires
        old(pos)@.len() == rows@.len(),
        forall|i: int| 0 <= i < rows@.len() ==> old(pos)@[i] <= rows@[i]@.len(),
    ensures
        r is Ok <==> all_cells_parse::<i32>(rows@, old(pos)@, opts),
        r is Err ==> r == Err::<DecodedColumn, CodecError>(CodecError::MalformedRow),
        r matches Ok(c) ==> (c matches DecodedColumn::Int32(col) && primitive_column_matches(
            rows@,
            old(pos)@,
            opts,
            col,
            final(pos)@,
        )),
{
    match decode_primitive::<i32>(rows, pos, opts) {
        Ok(c) => Ok(DecodedColumn::Int32(c)),
        Err(e) => Err(e),
    }
}

fn col_i64(rows: &Vec<Vec<u8>>, pos: &mut Vec<usize>, opts: SortOptions) -> (r: Result<
    DecodedColumn,
    CodecError,
>)
    requires
        old(pos)@.len() == rows@.len(),
        forall|i: int| 0 <= i < rows@.len() ==> old(pos)@[i] <= rows@[i]@.len(),
    ensures
        r is Ok <==> all_cells_parse::<i64>(rows@, old(pos)@, opts),
        r is Err ==> r == Err::<DecodedColumn, CodecError>(CodecError::MalformedRow),
        r matches Ok(c) ==> (c matches DecodedColumn::Int64(col) && primitive_column_matches(
            rows@,
            old(pos)@,
            opts,
            col,
            final(pos)@,
        )),
{
    match decode_primitive::<i64>(rows, pos, opts) {
        Ok(c) => Ok(DecodedColumn::Int64(c)),
        Err(e) => Err(e),
    }
}

fn col_i128(rows: &Vec<Vec<u8>>, pos: &mut Vec<usize>, opts: SortOptions) -> (r: Result<
    DecodedColumn,
    CodecError,
>)
    requires
        old(pos)@.len() == rows@.len(),
        forall|i: int| 0 <= i < rows@.len() ==> old(pos)@[i] <= rows@[i]@.len(),
    ensures
        r is Ok <==> all_cells_parse::<i128>(rows@, old(pos)@, opts),
        r is Err ==> r == Err::<DecodedColumn, CodecError>(CodecError::MalformedRow),
        r matches Ok(c) ==> (c matches DecodedColumn::Int128(col) && primitive_column_matches(
            rows@,
            old(pos)@,
            opts,
            col,
            final(pos)@,
        )),
{
    match decode_primitive::<i128>(rows, pos, opts) {
        Ok(c) => Ok(DecodedColumn::Int128(c)),
        Err(e) => Err(e),
    }
}

fn col_u8(rows: &Vec<Vec<u8>>, pos: &mut Vec<usize>, opts: SortOptions) -> (r: Result<
    DecodedColumn,
    CodecError,
>)
    requires
        old(pos)@.len() == rows@.len(),
        forall|i: int| 0 <= i < rows@.len() ==> old(pos)@[i] <= rows@[i]@.len(),
    ensures
        r is Ok <==> all_cells_parse::<u8>(rows@, old(pos)@, opts),
        r is Err ==> r == Err::<DecodedColumn, CodecError>(CodecError::MalformedRow),
        r matches Ok(c) ==> (c matches DecodedColumn::UInt8(col) && primitive_column_matches(
            rows@,
            old(pos)@,
            opts,
            col,
            final(pos)@,
        )),
{
    match decode_primitive::<u8>(rows, pos, opts) {
        Ok(c) => Ok(DecodedColumn::UInt8(c)),
        Err(e) => Err(e),
    }
}

fn col_u16(rows: &Vec<Vec<u8>>, pos: &mut Vec<usize>, opts: SortOptions) -> (r: Result<
    DecodedColumn,
    CodecError,
>)
    requires
        old(pos)@.len() == rows@.len(),
        forall|i: int| 0 <= i < rows@.len() ==> old(pos)@[i] <= rows@[i]@.len(),
    ensures
        r is Ok <==> all_cells_parse::<u16>(rows@, old(pos)@, opts),
        r is Err ==> r == Err::<DecodedColumn, CodecError>(CodecError::MalformedRow),
        r matches Ok(c) ==> (c matches DecodedColumn::UInt16(col) && primitive_column_matches(
            rows@,
            old(pos)@,
            opts,
            col,
            final(pos)@,
        )),
{
    match decode_primitive::<u16>(rows, pos, opts) {
        Ok(c) => Ok(DecodedColumn::UInt16(c)),
        Err(e) => Err(e),
    }
}

fn col_u32(rows: &Vec<Vec<u8>>, pos: &mut Vec<usize>, opts: SortOptions) -> (r: Result<
    DecodedColumn,
    CodecError,
>)
    requires
        old(pos)@.len() == rows@.len(),
        forall|i: int| 0 <= i < rows@.len() ==> old(pos)@[i] <= rows@[i]@.len(),
    ensures
        r is Ok <==> all_cells_parse::<u32>(rows@, old(pos)@, opts),
        r is Err ==> r == Err::<DecodedColumn, CodecError>(CodecError::MalformedRow),
        r matches Ok(c) ==> (c matches DecodedColumn::UInt32(col) && primitive_column_matches(
            rows@,
            old(pos)@,
            opts,
            col,
            final(pos)@,
        )),
{
    match decode_primitive::<u32>(rows, pos, opts) {
        Ok(c) => Ok(DecodedColumn::UInt32(c)),
        Err(e) => Err(e),
    }
}

fn col_u64(rows: &Vec<Vec<u8>>, pos: &mut Vec<usize>, opts: SortOptions) -> (r: Result<
    DecodedColumn,
    CodecError,
>)
    requires
        old(pos)@.len() == rows@.len(),
        forall|i: int| 0 <= i < rows@.len() ==> old(pos)@[i] <= rows@[i]@.len(),
    ensures
        r is Ok <==> all_cells_parse::<u64>(rows@, old(pos)@, opts),
        r is Err ==> r == Err::<DecodedColumn, CodecError>(CodecError::MalformedRow),
        r matches Ok(c) ==> (c matches DecodedColumn::UInt64(col) && primitive_column_matches(
            rows@,
            old(pos)@,
            opts,
            col,
            final(pos)@,
        )),
{
    match decode_primitive::<u64>(rows, pos, opts) {
        Ok(c) => Ok(DecodedColumn::UInt64(c)),
        Err(e) => Err(e),
    }
}

fn col_f16(rows: &Vec<Vec<u8>>, pos: &mut Vec<usize>, opts: SortOptions) -> (r: Result<
    DecodedColumn,
    CodecError,
>)
    requires
        old(pos)@.len() == rows@.len(),
        forall|i: int| 0 <= i < rows@.len() ==> old(pos)@[i] <= rows@[i]@.len(),
    ensures
        r is Ok <==> all_cells_parse::<Float16Bits>(rows@, old(pos)@, opts),
        r is Err ==> r == Err::<DecodedColumn, CodecError>(CodecError::MalformedRow),
        r matches Ok(c) ==> (c matches DecodedColumn::Float16(col) && primitive_column_matches(
            rows@,
            old(pos)@,
            opts,
            col,
            final(pos)@,
        )),
{
    match decode_primitive::<Float16Bits>(rows, pos, opts) {
        Ok(c) => Ok(DecodedColumn::Float16(c)),
        Err(e) => Err(e),
    }
}

fn col_f32(rows: &Vec<Vec<u8>>, pos: &mut Vec<usize>, opts: SortOptions) -> (r: Result<
    DecodedColumn,
    CodecError,
>)
    requires
        old(pos)@.len() == rows@.len(),
        forall|i: int| 0 <= i < rows@.len() ==> old(pos)@[i] <= rows@[i]@.len(),
    ensures
        r is Ok <==> all_cells_parse::<Float32Bits>(rows@, old(pos)@, opts),
        r is Err ==> r == Err::<DecodedColumn, CodecError>(CodecError::MalformedRow),
        r matches Ok(c) ==> (c matches DecodedColumn::Float32(col) && primitive_column_matches(
            rows@,
            old(pos)@,
            opts,
            col,
            final(pos)@,
        )),
{
    match decode_primitive::<Float32Bits>(rows, pos, opts) {
        Ok(c) => Ok(DecodedColumn::Float32(c)),
        Err(e) => Err(e),
    }
}

fn col_f64(rows: &Vec<Vec<u8>>, pos: &mut Vec<usize>, opts: SortOptions) -> (r: Result<
    DecodedColumn,
    CodecError,
>)
    requires
        old(pos)@.len() == rows@.len(),
        forall|i: int| 0 <= i < rows@.len() ==> old(pos)@[i] <= rows@[i]@.len(),
    ensures
        r is Ok <==> all_cells_parse::<Float64Bits>(rows@, old(pos)@, opts),
        r is Err ==> r == Err::<DecodedColumn, CodecError>(CodecError::MalformedRow),
        r matches Ok(c) ==> (c matches DecodedColumn::Float64(col) && primitive_column_matches(
            rows@,
            old(pos)@,
            opts,
            col,
            final(pos)@,
        )),
{
    match decode_primitive::<Float64Bits>(rows, pos, opts) {
        Ok(c) => Ok(DecodedColumn::Float64(c)),
        Err(e) => Err(e),
    }
}

fn col_dec128(
    rows: &Vec<Vec<u8>>,
    pos: &mut Vec<usize>,
    opts: SortOptions,
    precision: u8,
    scale: u8,
) -> (r: Result<DecodedColumn, CodecError>)
    requires
        old(pos)@.len() == rows@.len(),
        forall|i: int| 0 <= i < rows@.len() ==> old(pos)@[i] <= rows@[i]@.len(),
    ensures
        r is Ok <==> all_decimal_cells_parse(rows@, old(pos)@, opts, 16),
        r is Err ==> r == Err::<DecodedColumn, CodecError>(CodecError::MalformedRow),
        r matches Ok(c) ==> (c matches DecodedColumn::Decimal128(col) && decimal_column_matches(
            rows@,
            old(pos)@,
            opts,
            col,
            final(pos)@,
            precision,
            scale,
        )),
{
    match decode_decimal::<16>(rows, pos, opts, precision, scale) {
        Ok(c) => Ok(DecodedColumn::Decimal128(c)),
        Err(e) => Err(e),
    }
}

fn col_dec256(
    rows: &Vec<Vec<u8>>,
    pos: &mut Vec<usize>,
    opts: SortOptions,
    precision: u8,
    scale: u8,
) -> (r: Result<DecodedColumn, CodecError>)
    requires
        old(pos)@.len() == rows@.len(),
        forall|i: int| 0 <= i < rows@.len() ==> old(pos)@[i] <= rows@[i]@.len(),
    ensures
        r is Ok <==> all_decimal_cells_parse(rows@, old(pos)@, opts, 32),
        r is Err ==> r == Err::<DecodedColumn, CodecError>(CodecError::MalformedRow),
        r matches Ok(c) ==> (c matches DecodedColumn::Decimal256(col) && decimal_column_matches(
            rows@,
            old(pos)@,
            opts,
            col,
            final(pos)@,
            precision,
            scale,
        )),
{
    match decode_decimal::<32>(rows, pos, opts, precision, scale) {
        Ok(c) => Ok(DecodedColumn::Decimal256(c)),
        Err(e) => Err(e),
    }
}

/// Selects the row decoder for a column type and runs it over the rows'
/// cursors. A type without a codec reports `UnsupportedType`; a broken row
/// reports `MalformedRow`.
pub fn decode_column(
    value_type: &DataType,
    rows: &Vec<Vec<u8>>,
    pos: &mut Vec<usize>,
    opts: SortOptions,
) -> (r: Result<DecodedColumn, CodecError>)
    requires
        old(pos)@.len() == rows@.len(),
        forall|i: int| 0 <= i < rows@.len() ==> old(pos)@[i] <= rows@[i]@.len(),
    ensures
        r is Ok <==> (column_supported(*value_type) && column_parses(
            *value_type,
            rows@,
            old(pos)@,
            opts,
        )),
        r matches Ok(c) ==> column_matches(*value_type, rows@, old(pos)@, opts, c, final(pos)@),
        !column_supported(*value_type) <==> r == Err::<DecodedColumn, CodecError>(
            CodecError::UnsupportedType,
        ),
        r is Err ==> r == Err::<DecodedColumn, CodecError>(CodecError::UnsupportedType) || r
            == Err::<DecodedColumn, CodecError>(CodecError::MalformedRow),
{
    match value_type {
        DataType::Boolean => col_bool(rows, pos, opts),
        DataType::Int8 => col_i8(rows, pos, opts),
        DataType::Int16 => col_i16(rows, pos, opts),
        DataType::Int32 => col_i32(rows, pos, opts),
        DataType::Int64 => col_i64(rows, pos, opts),
        DataType::UInt8 => col_u8(rows, pos, opts),
        DataType::UInt16 => col_u16(rows, pos, opts),
        DataType::UInt32 => col_u32(rows, pos, opts),
        DataType::UInt64 => col_u64(rows, pos, opts),
        DataType::Float16 => col_f16(rows, pos, opts),
        DataType::Float32 => col_f32(rows, pos, opts),
        DataType::Float64 => col_f64(rows, pos, opts),
        DataType::Timestamp(_) => col_i64(rows, pos, opts),
        DataType::Date32 => col_i32(rows, pos, opts),
        DataType::Date64 => col_i64(rows, pos, opts),
        DataType::Time32(TimeUnit::Second) => col_i32(rows, pos, opts),
        DataType::Time32(TimeUnit::Millisecond) => col_i32(rows, pos, opts),
        DataType::Time32(_) => Err(CodecError::UnsupportedType),
        DataType::Time64(TimeUnit::Microsecond) => col_i64(rows, pos, opts),
        DataType::Time64(TimeUnit::Nanosecond) => col_i64(rows, pos, opts),
        DataType::Time64(_) => Err(CodecError::UnsupportedType),
        DataType::Duration(_) => col_i64(rows, pos, opts),
        DataType::Interval(IntervalUnit::YearMonth) => col_i32(rows, pos, opts),
        DataType::Interval(IntervalUnit::DayTime) => col_i64(rows, pos, opts),
        DataType::Interval(IntervalUnit::MonthDayNano) => col_i128(rows, pos, opts),
        DataType::Decimal128(p, s) => col_dec128(rows, pos, opts, *p, *s),
        DataType::Decimal256(p, s) => col_dec256(rows, pos, opts, *p, *s),
        DataType::Null => Err(CodecError::UnsupportedType),
        DataType::Binary => Err(CodecError::UnsupportedType),
        DataType::Utf8 => Err(CodecError::UnsupportedType),
    }
}

} // verus!
