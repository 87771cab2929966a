use row_codec::dictionary::{
    child_from_values, compute_dictionary_mapping, decode_dictionary, encode_dictionary,
    ChildColumn, ColumnValues, DictionaryKeyType,
};
use row_codec::interner::OrderPreservingInterner;
use row_codec::{CodecError, DataType, Rows, SortOptions, TimeUnit};

const ASC_NULLS_LAST: SortOptions = SortOptions { descending: false, nulls_first: false };
const DESC_NULLS_FIRST: SortOptions = SortOptions { descending: true, nulls_first: true };

#[test]
fn interner_monotone_on_samples() {
    let mut interner = OrderPreservingInterner::new();
    let inputs: Vec<Option<Vec<u8>>> = vec![
        Some(b"pear".to_vec()),
        Some(b"apple".to_vec()),
        None,
        Some(b"banana".to_vec()),
        Some(b"app".to_vec()),
        Some(b"apple".to_vec()),
        Some(b"applf".to_vec()),
    ];
    let handles = compute_inline(&mut interner, &inputs);
    // duplicates share a handle
    assert_eq!(handles[1], handles[5]);
    assert_eq!(handles[2], None);
    // sorted order of values equals sorted order of normalized keys
    let mut present: Vec<(Vec<u8>, Vec<u8>)> = handles
        .iter()
        .flatten()
        .map(|&h| {
            (
                interner.value(h).clone(),
                interner.normalized_key(h).clone(),
            )
        })
        .collect();
    let mut by_value = present.clone();
    by_value.sort_by(|a, b| a.0.cmp(&b.0));
    present.sort_by(|a, b| a.1.cmp(&b.1));
    assert_eq!(by_value, present);
    // keys round-trip through lookup
    for (_, key) in &by_value {
        let h = interner.lookup(key).unwrap();
        assert_eq!(interner.normalized_key(h), key);
    }
    assert!(interner.lookup(&[1, 2, 3]).is_none());
}

fn compute_inline(
    interner: &mut OrderPreservingInterner,
    inputs: &Vec<Option<Vec<u8>>>,
) -> Vec<Option<row_codec::interner::Interned>> {
    interner.intern(inputs)
}

fn dict_rows(
    interner: &mut OrderPreservingInterner,
    words: &[&str],
    keys: &Vec<Option<usize>>,
    opts: SortOptions,
) -> Vec<Vec<u8>> {
    let values = ColumnValues::Utf8(words.iter().map(|w| Some(w.as_bytes().to_vec())).collect());
    let handles = compute_dictionary_mapping(interner, &values);
    let normalized: Vec<Option<Vec<u8>>> = handles
        .iter()
        .map(|h| h.map(|h| interner.normalized_key(h).clone()))
        .collect();
    let lengths: Vec<usize> = keys
        .iter()
        .map(|k| match k {
            Some(k) => 1 + normalized[*k].as_ref().unwrap().len(),
            None => 1,
        })
        .collect();
    let mut rows = Rows::new(&lengths);
    encode_dictionary(&mut rows, keys, &normalized, opts);
    let mut out = Vec::new();
    let mut start = 0usize;
    for (i, len) in lengths.iter().enumerate() {
        let end = rows.offsets[i + 1];
        assert_eq!(end, start + len);
        out.push(rows.buffer[start..end].to_vec());
        start = end;
    }
    out
}

#[test]
fn dictionary_sorts_and_round_trips() {
    let mut interner = OrderPreservingInterner::new();
    let keys: Vec<Option<usize>> = vec![Some(0), Some(1), Some(0), Some(2), None];
    let rows = dict_rows(&mut interner, &["banana", "apple", "cherry"], &keys, ASC_NULLS_LAST);
    let mut sorted = rows.clone();
    sorted.sort();
    // decode the sorted rows
    let mut pos = vec![0usize; sorted.len()];
    let col = decode_dictionary(
        &interner,
        ASC_NULLS_LAST,
        &sorted,
        &mut pos,
        DictionaryKeyType::UInt16,
    )
    .unwrap();
    assert_eq!(col.valid, vec![true, true, true, true, false]);
    let decoded: Vec<Option<&[u8]>> = (0..5)
        .map(|i| {
            if col.valid[i] {
                Some(col.values[col.keys[i] as usize].as_slice())
            } else {
                None
            }
        })
        .collect();
    assert_eq!(
        decoded,
        vec![
            Some(b"apple".as_slice()),
            Some(b"banana".as_slice()),
            Some(b"banana".as_slice()),
            Some(b"cherry".as_slice()),
            None
        ]
    );
    let child = child_from_values(&DataType::Utf8, &col.values).unwrap();
    match child {
        ChildColumn::Utf8(vs) => {
            assert_eq!(vs.len(), 3);
            assert_eq!(vs[0], b"apple".to_vec());
        }
        _ => panic!("wrong child kind"),
    }
}

#[test]
fn dictionary_descending_round_trips() {
    let mut interner = OrderPreservingInterner::new();
    let keys: Vec<Option<usize>> = vec![Some(1), None, Some(0)];
    let rows = dict_rows(&mut interner, &["low", "high"], &keys, DESC_NULLS_FIRST);
    // null sorts first under descending nulls-first
    let mut sorted = rows.clone();
    sorted.sort();
    assert_eq!(sorted[0], rows[1]);
    let mut pos = vec![0usize; rows.len()];
    let col = decode_dictionary(
        &interner,
        DESC_NULLS_FIRST,
        &rows,
        &mut pos,
        DictionaryKeyType::Int8,
    )
    .unwrap();
    assert_eq!(col.valid, vec![true, false, true]);
    assert_eq!(col.values[col.keys[0] as usize], b"high".to_vec());
    assert_eq!(col.values[col.keys[2] as usize], b"low".to_vec());
}

#[test]
fn dictionary_key_overflow() {
    let mut interner = OrderPreservingInterner::new();
    let inputs: Vec<Option<Vec<u8>>> = (0..257u32)
        .map(|i| Some(vec![(i & 0xff) as u8, (i >> 8) as u8, 7]))
        .collect();
    let handles = interner.intern(&inputs);
    let normalized: Vec<Option<Vec<u8>>> = handles
        .iter()
        .map(|h| h.map(|h| interner.normalized_key(h).clone()))
        .collect();
    let keys: Vec<Option<usize>> = (0..257).map(Some).collect();
    let lengths: Vec<usize> = keys
        .iter()
        .map(|k| 1 + normalized[k.unwrap()].as_ref().unwrap().len())
        .collect();
    let mut rows = Rows::new(&lengths);
    encode_dictionary(&mut rows, &keys, &normalized, ASC_NULLS_LAST);
    let mut row_bytes = Vec::new();
    let mut start = 0usize;
    for (i, len) in lengths.iter().enumerate() {
        let end = rows.offsets[i + 1];
        row_bytes.push(rows.buffer[start..end].to_vec());
        start = start + len;
    }
    // 257 distinct values do not fit one unsigned byte of key space
    let mut pos = vec![0usize; row_bytes.len()];
    assert!(matches!(
        decode_dictionary(
            &interner,
            ASC_NULLS_LAST,
            &row_bytes,
            &mut pos,
            DictionaryKeyType::UInt8
        ),
        Err(CodecError::DictionaryKeyOverflow)
    ));
    // but they fit sixteen bits
    let mut pos = vec![0usize; row_bytes.len()];
    let col = decode_dictionary(
        &interner,
        ASC_NULLS_LAST,
        &row_bytes,
        &mut pos,
        DictionaryKeyType::UInt16,
    )
    .unwrap();
    assert_eq!(col.values.len(), 257);
}

#[test]
fn dictionary_error_cases() {
    // wrong interner: the key is unknown
    let mut interner = OrderPreservingInterner::new();
    let keys: Vec<Option<usize>> = vec![Some(0)];
    let rows = dict_rows(&mut interner, &["x"], &keys, ASC_NULLS_LAST);
    let empty = OrderPreservingInterner::new();
    let mut pos = vec![0usize; 1];
    assert!(matches!(
        decode_dictionary(&empty, ASC_NULLS_LAST, &rows, &mut pos, DictionaryKeyType::Int32),
        Err(CodecError::InternerInvariantViolation)
    ));
    // a row without a terminator is malformed
    let bad = vec![vec![0x01, 0x42, 0x42]];
    let mut pos = vec![0usize; 1];
    assert!(matches!(
        decode_dictionary(&interner, ASC_NULLS_LAST, &bad, &mut pos, DictionaryKeyType::Int32),
        Err(CodecError::MalformedRow)
    ));
    // unsupported child type
    assert!(matches!(
        child_from_values(&DataType::Time32(TimeUnit::Microsecond), &Vec::new()),
        Err(CodecError::UnsupportedType)
    ));
    // a payload of the wrong width for the value type
    assert!(matches!(
        child_from_values(&DataType::Int32, &vec![vec![0u8, 0, 0]]),
        Err(CodecError::MalformedRow)
    ));
}

#[test]
fn dictionary_primitive_values_child() {
    let mut interner = OrderPreservingInterner::new();
    let values = ColumnValues::Int32(vec![Some(300), Some(-7), None]);
    let handles = compute_dictionary_mapping(&mut interner, &values);
    assert!(handles[0].is_some() && handles[1].is_some());
    assert!(handles[2].is_none());
    let normalized: Vec<Option<Vec<u8>>> = handles
        .iter()
        .map(|h| h.map(|h| interner.normalized_key(h).clone()))
        .collect();
    let keys: Vec<Option<usize>> = vec![Some(1), Some(0), Some(2)];
    let lengths: Vec<usize> = keys
        .iter()
        .map(|k| match normalized[k.unwrap()].as_ref() {
            Some(nk) => 1 + nk.len(),
            None => 1,
        })
        .collect();
    let mut rows = Rows::new(&lengths);
    encode_dictionary(&mut rows, &keys, &normalized, ASC_NULLS_LAST);
    let mut row_bytes = Vec::new();
    let mut start = 0usize;
    for (i, len) in lengths.iter().enumerate() {
        let end = rows.offsets[i + 1];
        row_bytes.push(rows.buffer[start..end].to_vec());
        start = start + len;
    }
    let mut pos = vec![0usize; 3];
    let col = decode_dictionary(
        &interner,
        ASC_NULLS_LAST,
        &row_bytes,
        &mut pos,
        DictionaryKeyType::Int64,
    )
    .unwrap();
    assert_eq!(col.valid, vec![true, true, false]);
    match child_from_values(&DataType::Int32, &col.values).unwrap() {
        ChildColumn::Int32(vs) => {
            assert_eq!(vs[col.keys[0] as usize], -7);
            assert_eq!(vs[col.keys[1] as usize], 300);
        }
        _ => panic!("wrong child kind"),
    }
}

#[test]
fn interner_insertion_is_incremental() {
    let mut interner = OrderPreservingInterner::new();
    let first: Vec<Option<Vec<u8>>> =
        vec![Some(b"m".to_vec()), Some(b"d".to_vec()), Some(b"t".to_vec())];
    let h1 = interner.intern(&first);
    let keys_before: Vec<Vec<u8>> = h1
        .iter()
        .map(|h| interner.normalized_key(h.unwrap()).clone())
        .collect();
    // a second batch lands between and around the first without moving it
    let second: Vec<Option<Vec<u8>>> = vec![
        Some(b"a".to_vec()),
        Some(b"f".to_vec()),
        Some(b"z".to_vec()),
        Some(b"d".to_vec()),
    ];
    let h2 = interner.intern(&second);
    for (h, old_key) in h1.iter().zip(keys_before.iter()) {
        assert_eq!(interner.normalized_key(h.unwrap()), old_key);
    }
    assert_eq!(h2[3], h1[1]); // "d" again
    let mut pairs: Vec<(Vec<u8>, Vec<u8>)> = h1
        .iter()
        .chain(h2.iter().take(3))
        .map(|h| {
            (
                interner.value(h.unwrap()).clone(),
                interner.normalized_key(h.unwrap()).clone(),
            )
        })
        .collect();
    let by_value = {
        let mut v = pairs.clone();
        v.sort_by(|a, b| a.0.cmp(&b.0));
        v
    };
    pairs.sort_by(|a, b| a.1.cmp(&b.1));
    assert_eq!(by_value, pairs);
    // every stored key ends with the terminator and holds no interior zero
    for (_, key) in &pairs {
        assert_eq!(*key.last().unwrap(), 0u8);
        assert!(key[..key.len() - 1].iter().all(|&b| b != 0));
    }
}
