use row_codec::fixed::{
    decode_bool, decode_decimal, decode_fixed, decode_primitive, encode, encode_decimal,
    encoded_len, from_slice, split_off, FixedLengthEncoding, Float16Bits, Float32Bits,
    Float64Bits, RawDecimal,
};
use row_codec::dispatch::{decode_column, DecodedColumn};
use row_codec::{null_sentinel, CodecError, DataType, Rows, SortOptions};

const ASC_NULLS_LAST: SortOptions = SortOptions { descending: false, nulls_first: false };
const ASC_NULLS_FIRST: SortOptions = SortOptions { descending: false, nulls_first: true };
const DESC_NULLS_FIRST: SortOptions = SortOptions { descending: true, nulls_first: true };

fn encode_rows<T: FixedLengthEncoding>(col: &Vec<Option<T>>, opts: SortOptions) -> Vec<Vec<u8>> {
    let w = T::width();
    let lengths: Vec<usize> = col.iter().map(|c| if c.is_some() { 1 + w } else { 1 }).collect();
    let mut rows = Rows::new(&lengths);
    encode(&mut rows, col, opts);
    split_rows(&rows, &lengths)
}

fn split_rows(rows: &Rows, lengths: &Vec<usize>) -> Vec<Vec<u8>> {
    let mut out = Vec::new();
    let mut start = 0usize;
    for (i, len) in lengths.iter().enumerate() {
        let end = rows.offsets[i + 1];
        assert_eq!(end, start + len);
        out.push(rows.buffer[start..end].to_vec());
        start = end;
    }
    out
}

#[test]
fn null_sentinel_placement() {
    assert_eq!(null_sentinel(ASC_NULLS_FIRST), 0x00);
    assert_eq!(null_sentinel(ASC_NULLS_LAST), 0xff);
    assert_eq!(null_sentinel(DESC_NULLS_FIRST), 0x00);
    assert_eq!(
        null_sentinel(SortOptions { descending: true, nulls_first: false }),
        0xff
    );
}

#[test]
fn signed8_ascending_payloads() {
    let col: Vec<Option<i8>> = vec![Some(-1), Some(0), Some(1)];
    let rows = encode_rows(&col, ASC_NULLS_LAST);
    assert_eq!(rows[0], vec![0x01, 0x7f]);
    assert_eq!(rows[1], vec![0x01, 0x80]);
    assert_eq!(rows[2], vec![0x01, 0x81]);
    let mut sorted = rows.clone();
    sorted.sort();
    assert_eq!(sorted, rows);
}

#[test]
fn fixed_round_trip_all_scalars() {
    fn check<T: FixedLengthEncoding + PartialEq + std::fmt::Debug + Clone>(
        col: Vec<Option<T>>,
        opts: SortOptions,
    ) {
        let rows = encode_rows(&col, opts);
        let mut pos = vec![0usize; rows.len()];
        let decoded = decode_fixed::<T>(&rows, &mut pos, opts).unwrap();
        for (i, c) in col.iter().enumerate() {
            assert_eq!(decoded.valid[i], c.is_some());
            if let Some(v) = c {
                assert_eq!(&decoded.values[i], v);
            }
            assert_eq!(pos[i], rows[i].len());
        }
    }
    for &opts in &[ASC_NULLS_LAST, ASC_NULLS_FIRST, DESC_NULLS_FIRST] {
        check::<bool>(vec![Some(true), None, Some(false)], opts);
        check::<i8>(vec![Some(i8::MIN), Some(-1), None, Some(i8::MAX)], opts);
        check::<i16>(vec![Some(i16::MIN), Some(0), Some(i16::MAX)], opts);
        check::<i32>(vec![Some(i32::MIN), None, Some(i32::MAX)], opts);
        check::<i64>(vec![Some(i64::MIN), Some(-1), Some(i64::MAX)], opts);
        check::<i128>(vec![Some(i128::MIN), None, Some(i128::MAX)], opts);
        check::<u8>(vec![Some(0), Some(255), None], opts);
        check::<u16>(vec![Some(0), Some(u16::MAX)], opts);
        check::<u32>(vec![Some(7), None, Some(u32::MAX)], opts);
        check::<u64>(vec![Some(0), Some(u64::MAX), None], opts);
    }
}

#[test]
fn fixed_order_matches_values() {
    let col: Vec<Option<i64>> = vec![Some(-5), Some(3), None, Some(i64::MIN), Some(0)];
    let rows = encode_rows(&col, ASC_NULLS_LAST);
    let mut tagged: Vec<(Vec<u8>, usize)> =
        rows.iter().cloned().zip(0..col.len()).collect();
    tagged.sort();
    let order: Vec<usize> = tagged.iter().map(|p| p.1).collect();
    // -9223372036854775808, -5, 0, 3, null
    assert_eq!(order, vec![3, 0, 4, 1, 2]);
}

#[test]
fn float32_total_order_and_round_trip() {
    let floats = [-0.0f32, 0.0, -1.0, 1.0];
    let col: Vec<Option<Float32Bits>> =
        floats.iter().map(|f| Some(Float32Bits(f.to_bits()))).collect();
    let rows = encode_rows(&col, ASC_NULLS_LAST);
    // all four encodings are distinct
    for i in 0..rows.len() {
        for j in 0..rows.len() {
            if i != j {
                assert_ne!(rows[i], rows[j]);
            }
        }
    }
    let mut pos = vec![0usize; rows.len()];
    let decoded = decode_primitive::<Float32Bits>(&rows, &mut pos, ASC_NULLS_LAST).unwrap();
    for (i, f) in floats.iter().enumerate() {
        assert_eq!(f32::from_bits(decoded.values[i].0), *f);
    }
    let mut tagged: Vec<(Vec<u8>, f32)> =
        rows.iter().cloned().zip(floats.iter().cloned()).collect();
    tagged.sort_by(|a, b| a.0.cmp(&b.0));
    let sorted: Vec<f32> = tagged.iter().map(|p| p.1).collect();
    assert_eq!(sorted[0], -1.0);
    assert!(sorted[1] == -0.0 && sorted[1].is_sign_negative());
    assert!(sorted[2] == 0.0 && sorted[2].is_sign_positive());
    assert_eq!(sorted[3], 1.0);
}

#[test]
fn float16_and_float64_round_trip() {
    let halves = [half::f16::from_f32(-2.5), half::f16::from_f32(0.25)];
    let col: Vec<Option<Float16Bits>> =
        halves.iter().map(|h| Some(Float16Bits(h.to_bits()))).collect();
    let rows = encode_rows(&col, DESC_NULLS_FIRST);
    let mut pos = vec![0usize; rows.len()];
    let decoded = decode_primitive::<Float16Bits>(&rows, &mut pos, DESC_NULLS_FIRST).unwrap();
    for (i, h) in halves.iter().enumerate() {
        assert_eq!(half::f16::from_bits(decoded.values[i].0), *h);
    }
    // descending flips the order of the encodings: the smaller half sorts last
    assert!(rows[0] > rows[1]);

    let col64: Vec<Option<Float64Bits>> =
        vec![Some(Float64Bits((-3.5f64).to_bits())), Some(Float64Bits(7.25f64.to_bits()))];
    let rows64 = encode_rows(&col64, ASC_NULLS_LAST);
    assert!(rows64[0] < rows64[1]);
    let mut pos64 = vec![0usize; 2];
    let decoded64 = decode_primitive::<Float64Bits>(&rows64, &mut pos64, ASC_NULLS_LAST).unwrap();
    assert_eq!(f64::from_bits(decoded64.values[0].0), -3.5);
    assert_eq!(f64::from_bits(decoded64.values[1].0), 7.25);
}

#[test]
fn decimal_round_trip_and_order() {
    let neg_one = RawDecimal::<16>(vec![0xff; 16]); // -1 in two's-complement LE
    let zero = RawDecimal::<16>(vec![0x00; 16]);
    let payload = neg_one.encode();
    assert_eq!(payload[0], 0x7f);
    assert!(payload[1..].iter().all(|&b| b == 0xff));
    assert!(payload < zero.encode());
    let back = RawDecimal::<16>::decode(payload.as_slice());
    assert_eq!(back.0, neg_one.0);

    let col: Vec<Option<RawDecimal<16>>> = vec![
        Some(RawDecimal(vec![0xff; 16])),
        None,
        Some(RawDecimal(vec![0x00; 16])),
    ];
    let lengths: Vec<usize> = col.iter().map(|c| if c.is_some() { 17 } else { 1 }).collect();
    let mut rows = Rows::new(&lengths);
    encode_decimal(&mut rows, &col, ASC_NULLS_LAST);
    let row_bytes = split_rows(&rows, &lengths);
    let mut pos = vec![0usize; 3];
    let decoded = decode_decimal::<16>(&row_bytes, &mut pos, ASC_NULLS_LAST, 38, 2).unwrap();
    assert_eq!(decoded.precision, 38);
    assert_eq!(decoded.scale, 2);
    assert_eq!(decoded.valid, vec![true, false, true]);
    assert_eq!(decoded.values[0].0, vec![0xff; 16]);
    assert_eq!(decoded.values[1].0, vec![0x00; 16]); // null slot holds zero
    assert_eq!(decoded.values[2].0, vec![0x00; 16]);
}

#[test]
fn malformed_rows_are_reported() {
    // empty row
    let rows: Vec<Vec<u8>> = vec![vec![]];
    let mut pos = vec![0usize];
    assert!(matches!(
        decode_fixed::<i32>(&rows, &mut pos, ASC_NULLS_LAST),
        Err(CodecError::MalformedRow)
    ));
    // bad validity byte
    let rows = vec![vec![0x02, 0, 0, 0, 0]];
    let mut pos = vec![0usize];
    assert!(matches!(
        decode_fixed::<i32>(&rows, &mut pos, ASC_NULLS_LAST),
        Err(CodecError::MalformedRow)
    ));
    // truncated payload
    let rows = vec![vec![0x01, 0, 0]];
    let mut pos = vec![0usize];
    assert!(matches!(
        decode_fixed::<i32>(&rows, &mut pos, ASC_NULLS_LAST),
        Err(CodecError::MalformedRow)
    ));
}

#[test]
fn bool_and_helpers() {
    let col: Vec<Option<bool>> = vec![Some(true), None, Some(false)];
    let rows = encode_rows(&col, ASC_NULLS_FIRST);
    let mut pos = vec![0usize; 3];
    let decoded = decode_bool(&rows, &mut pos, ASC_NULLS_FIRST).unwrap();
    assert_eq!(decoded.values, vec![true, false, false]);
    assert_eq!(decoded.valid, vec![true, false, true]);

    assert_eq!(encoded_len::<i64>(), 9);
    assert_eq!(from_slice(&[1, 2, 3], false), vec![1, 2, 3]);
    assert_eq!(from_slice(&[1, 2, 3], true), vec![254, 253, 252]);

    let src = vec![9u8, 8, 7, 6];
    let mut p = 1usize;
    let taken = split_off(&src, &mut p, 2);
    assert_eq!(taken, vec![8, 7]);
    assert_eq!(p, 3);
}

#[test]
fn multi_column_rows_sort_like_tuples() {
    // two columns: i32 ascending, then u8 descending
    let c0: Vec<Option<i32>> = vec![Some(1), Some(1), Some(0), None];
    let c1: Vec<Option<u8>> = vec![Some(1), Some(2), Some(9), Some(5)];
    let opts0 = ASC_NULLS_LAST;
    let opts1 = DESC_NULLS_FIRST;
    let lengths: Vec<usize> = (0..4)
        .map(|i| {
            (if c0[i].is_some() { 5 } else { 1 }) + (if c1[i].is_some() { 2 } else { 1 })
        })
        .collect();
    let mut rows = Rows::new(&lengths);
    encode(&mut rows, &c0, opts0);
    encode(&mut rows, &c1, opts1);
    let row_bytes = split_rows(&rows, &lengths);
    let mut tagged: Vec<(Vec<u8>, usize)> = row_bytes.iter().cloned().zip(0..4).collect();
    tagged.sort();
    let order: Vec<usize> = tagged.iter().map(|p| p.1).collect();
    // tuples: (1,1) (1,2) (0,9) (null,5); ascending first column nulls last,
    // second column descending: (0,9), (1,2), (1,1), null
    assert_eq!(order, vec![2, 1, 0, 3]);

    // and the columns decode back in definition order
    let mut pos = vec![0usize; 4];
    let d0 = decode_fixed::<i32>(&row_bytes, &mut pos, opts0).unwrap();
    let d1 = decode_fixed::<u8>(&row_bytes, &mut pos, opts1).unwrap();
    assert_eq!(d0.valid, vec![true, true, true, false]);
    assert_eq!(d0.values[..3], [1, 1, 0]);
    assert_eq!(d1.values, vec![1, 2, 9, 5]);
}

#[test]
fn column_dispatch() {
    let col: Vec<Option<i64>> = vec![Some(5), None];
    let rows = encode_rows(&col, ASC_NULLS_LAST);
    let mut pos = vec![0usize; 2];
    match decode_column(&DataType::Timestamp(row_codec::TimeUnit::Second), &rows, &mut pos, ASC_NULLS_LAST)
        .unwrap()
    {
        DecodedColumn::Int64(c) => {
            assert_eq!(c.values[0], 5);
            assert_eq!(c.valid, vec![true, false]);
        }
        _ => panic!("wrong column kind"),
    }
    let mut pos = vec![0usize; 2];
    assert!(matches!(
        decode_column(&DataType::Utf8, &rows, &mut pos, ASC_NULLS_LAST),
        Err(CodecError::UnsupportedType)
    ));
}
