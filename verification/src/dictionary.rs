use vstd::prelude::*;
use crate::Rows;
use crate::lex::{lex_lt, lemma_lex_irrefl, lemma_lex_common_prefix, lemma_lex_diverge, lemma_lex_asym};
use crate::fixed::{
    invert_byte, invert_bytes, lemma_invert_involution, FixedLengthEncoding, region_end,
    write_cells,
};
use crate::interner::{Interned, OrderPreservingInterner, body_ok, is_prefix};

verus! {

/// The shape of a stored normalized key: a valid body followed by the
/// `0x00` terminator and nothing else.
pub open spec fn key_shape(k: Seq<u8>) -> bool {
    k.len() >= 2 && body_ok(k.drop_last()) && k.last() == 0u8
}

/// Every key a well-formed interner hands out has the stored shape, so the
/// cell laws below apply to it.
pub proof fn lemma_interner_key_shape(it: OrderPreservingInterner, h: int)
    requires
        it.wf(),
        0 <= h < it.len_spec(),
    ensures
        key_shape(it.key(h)),
{
    crate::interner::lemma_key_parts(it, h);
}

/// The bytes one dictionary cell contributes to its row: a validity byte
/// `0x01` and the normalized key, terminator included, the whole segment
/// inverted under descending order; or the bare null sentinel.
pub open spec fn dict_cell_spec(nk: Option<Seq<u8>>, opts: crate::SortOptions) -> Seq<u8> {
    match nk {
        Option::Some(k) => {
            let body = seq![1u8] + k;
            if opts.descending {
                invert_bytes(body)
            } else {
                body
            }
        },
        Option::None => seq![crate::null_sentinel_spec(opts)],
    }
}

pub open spec fn dict_cell_len(nk: Option<Seq<u8>>) -> nat {
    match nk {
        Option::Some(k) => 1 + k.len(),
        Option::None => 1,
    }
}

/// The normalized key a row of a dictionary column carries: the row's key
/// index resolved through the per-value normalized keys, null when either
/// side is null.
pub open spec fn dict_row_key(
    keys: Seq<Option<usize>>,
    nks: Seq<Option<Vec<u8>>>,
    i: int,
) -> Option<Seq<u8>> {
    match keys[i] {
        Option::Some(k) => match nks[k as int] {
            Option::Some(s) => Option::Some(s@),
            Option::None => Option::None,
        },
        Option::None => Option::None,
    }
}

/// Builds the row bytes of one dictionary cell.
fn dict_cell(nk: Option<&Vec<u8>>, opts: crate::SortOptions) -> (r: Vec<u8>)
    ensures
        r@ == dict_cell_spec(
            match nk {
                Option::Some(k) => Option::Some(k@),
                Option::None => Option::None,
            },
            opts,
        ),
{
    match nk {
        Option::None => {
            let mut c: Vec<u8> = Vec::new();
            c.push(crate::null_sentinel(opts));
            proof {
                assert(c@ =~= seq![crate::null_sentinel_spec(opts)]);
            }
            c
        },
        Option::Some(k) => {
            let mut c: Vec<u8> = Vec::new();
            c.push(1u8);
            let mut j: usize = 0;
            while j < k.len()
                invariant
                    0 <= j <= k@.len(),
                    c@.len() == 1 + j,
                    c@[0] == 1u8,
                    forall|m: int| 0 <= m < j ==> c@[m + 1] == k@[m],
                decreases k@.len() - j,
            {
                c.push(k[j]);
                j = j + 1;
            }
            proof {
                assert(c@ =~= seq![1u8] + k@);
            }
            if opts.descending {
                let ghost body = c@;
                let mut m: usize = 0;
                while m < c.len()
                    invariant
                        0 <= m <= c@.len(),
                        c@.len() == body.len(),
                        forall|t: int| 0 <= t < m ==> c@[t] == invert_byte(body[t]),
                        forall|t: int| m <= t < c@.len() ==> c@[t] == body[t],
                    decreases c@.len() - m,
                {
                    let b = c[m];
                    c.set(m, 255 - b);
                    m = m + 1;
                }
                proof {
                    assert(c@ =~= invert_bytes(body));
                }
            }
            c
        },
    }
}

/// Dictionary columns are encoded one cell per row: the null sentinel when
/// the row's key or its value is null, otherwise `0x01` and the normalized
/// key of the row's value, terminator included, inverted when descending.
pub fn encode_dictionary(
    out: &mut Rows,
    keys: &Vec<Option<usize>>,
    normalized_keys: &Vec<Option<Vec<u8>>>,
    opts: crate::SortOptions,
)
    requires
        old(out).offsets@.len() == keys@.len() + 1,
        forall|i: int|
            0 <= i < keys@.len() ==> ((#[trigger] keys@[i]) matches Option::Some(k) ==> k
                < normalized_keys@.len()),
        forall|i: int|
            0 <= i < keys@.len() ==> old(out).offsets@[i + 1] + dict_cell_len(
                dict_row_key(keys@, normalized_keys@, i),
            ) <= region_end(*old(out), i, keys@.len() as int),
    ensures
        final(out).buffer@.len() == old(out).buffer@.len(),
        final(out).offsets@.len() == old(out).offsets@.len(),
        final(out).offsets@[0] == old(out).offsets@[0],
        forall|i: int|
            0 <= i < keys@.len() ==> final(out).offsets@[i + 1] == old(out).offsets@[i + 1]
                + dict_cell_len(dict_row_key(keys@, normalized_keys@, i)),
        forall|i: int|
            0 <= i < keys@.len() ==> final(out).buffer@.subrange(
                old(out).offsets@[i + 1] as int,
                old(out).offsets@[i + 1] + dict_cell_len(dict_row_key(keys@, normalized_keys@, i)),
            ) == dict_cell_spec(dict_row_key(keys@, normalized_keys@, i), opts),
{
    let n = keys.len();
    let mut cells: Vec<Vec<u8>> = Vec::new();
    let mut i: usize = 0;
    while i < n
        invariant
            0 <= i <= n,
            n == keys@.len(),
            forall|j: int|
                0 <= j < keys@.len() ==> ((#[trigger] keys@[j]) matches Option::Some(k) ==> k
                    < normalized_keys@.len()),
            cells@.len() == i,
            forall|j: int|
                0 <= j < i ==> (#[trigger] cells@[j])@ == dict_cell_spec(
                    dict_row_key(keys@, normalized_keys@, j),
                    opts,
                ) && cells@[j]@.len() == dict_cell_len(dict_row_key(keys@, normalized_keys@, j)),
        decreases n - i,
    {
        let c = match &keys[i] {
            Option::Some(k) => {
                match &normalized_keys[*k] {
                    Option::Some(nk) => dict_cell(Option::Some(nk), opts),
                    Option::None => dict_cell(Option::None, opts),
                }
            },
            Option::None => dict_cell(Option::None, opts),
        };
        cells.push(c);
        i = i + 1;
    }
    write_cells(out, &cells);
    proof {
        assert forall|i2: int|
            0 <= i2 < keys@.len() implies out.offsets@[i2 + 1] == old(out).offsets@[i2 + 1]
            + dict_cell_len(dict_row_key(keys@, normalized_keys@, i2)) by {
            assert(cells@[i2]@.len() == dict_cell_len(dict_row_key(keys@, normalized_keys@, i2)));
        }
        assert forall|i2: int|
            0 <= i2 < keys@.len() implies out.buffer@.subrange(
            old(out).offsets@[i2 + 1] as int,
            old(out).offsets@[i2 + 1] + dict_cell_len(dict_row_key(keys@, normalized_keys@, i2)),
        ) == dict_cell_spec(dict_row_key(keys@, normalized_keys@, i2), opts) by {
            assert(cells@[i2]@.len() == dict_cell_len(dict_row_key(keys@, normalized_keys@, i2)));
            assert(cells@[i2]@ == dict_cell_spec(dict_row_key(keys@, normalized_keys@, i2), opts));
        }
    }
}

/// The first position at or after `from` holding the terminator byte.
pub open spec fn first_term(s: Seq<u8>, from: int, term: u8) -> Option<int>
    decreases s.len() - from,
{
    if from < 0 || from >= s.len() {
        Option::None
    } else if s[from] == term {
        Option::Some(from)
    } else {
        first_term(s, from + 1, term)
    }
}

/// If `j` is the first occurrence of the terminator, the scan finds it.
pub proof fn lemma_first_term_found(s: Seq<u8>, from: int, term: u8, j: int)
    requires
        0 <= from <= j < s.len(),
        s[j] == term,
        forall|m: int| from <= m < j ==> s[m] != term,
    ensures
        first_term(s, from, term) == Option::Some(j),
    decreases j - from,
{
    if from < j {
        lemma_first_term_found(s, from + 1, term, j);
    }
}

/// Reads one dictionary cell off the front of a row suffix: `None` when no
/// terminator is found; otherwise the normalized key as interned (inverted
/// back under descending order) and the bytes consumed.
pub open spec fn dict_cell_scan(s: Seq<u8>, opts: crate::SortOptions) -> Option<
    (Option<Seq<u8>>, nat),
> {
    let term: u8 = if opts.descending {
        255u8
    } else {
        0u8
    };
    if s.len() < 1 {
        Option::None
    } else if s[0] == crate::null_sentinel_spec(opts) {
        Option::Some((Option::None, 1nat))
    } else {
        match first_term(s, 1, term) {
            Option::None => Option::None,
            Option::Some(j) => {
                let wire = s.subrange(1, j + 1);
                let plain = if opts.descending {
                    invert_bytes(wire)
                } else {
                    wire
                };
                Option::Some((Option::Some(plain), (j + 1) as nat))
            },
        }
    }
}

/// Scanning what the dictionary encoder wrote, with any continuation behind
/// it, returns exactly the normalized key written and consumes exactly the
/// cell.
pub proof fn lemma_dict_cell_round_trip(nk: Option<Seq<u8>>, tail: Seq<u8>, opts: crate::SortOptions)
    requires
        nk matches Option::Some(k) ==> key_shape(k),
    ensures
        dict_cell_scan(dict_cell_spec(nk, opts) + tail, opts) == Option::Some(
            (nk, dict_cell_len(nk)),
        ),
{
    let s = dict_cell_spec(nk, opts) + tail;
    let term: u8 = if opts.descending {
        255u8
    } else {
        0u8
    };
    match nk {
        Option::None => {
            assert(s[0] == crate::null_sentinel_spec(opts));
        },
        Option::Some(k) => {
            let body = seq![1u8] + k;
            let cell = dict_cell_spec(nk, opts);
            assert(cell.len() == 1 + k.len());
            assert(body[0] == 1u8);
            if opts.descending {
                assert(cell[0] == invert_byte(body[0]));
            }
            assert(s[0] != crate::null_sentinel_spec(opts));
            // the terminator stands exactly at the end of the key
            let j = k.len() as int;
            assert(s[j] == (if opts.descending {
                invert_byte(k.last())
            } else {
                k.last()
            })) by {
                assert(s[j] == cell[j]);
                assert(body[j] == k[j - 1]);
                assert(k[j - 1] == k.last());
                if opts.descending {
                    assert(cell[j] == invert_byte(body[j]));
                }
            }
            assert(s[j] == term);
            assert forall|m: int| 1 <= m < j implies s[m] != term by {
                assert(s[m] == cell[m]);
                assert(body[m] == k[m - 1]);
                assert(k[m - 1] == k.drop_last()[m - 1]);
                assert(k.drop_last()[m - 1] != 0u8);
                if opts.descending {
                    assert(cell[m] == invert_byte(body[m]));
                }
            }
            lemma_first_term_found(s, 1, term, j);
            let wire = s.subrange(1, j + 1);
            if opts.descending {
                assert(wire =~= invert_bytes(k));
                lemma_invert_involution(k);
                assert(invert_bytes(wire) == k);
            } else {
                assert(wire =~= k);
            }
        },
    }
}

/// The typed comparison a dictionary cell realizes: nulls to the requested
/// end, present values by the lexicographic order of their normalized keys
/// (the interner makes that the order of the values), reversed when
/// descending.
pub open spec fn dict_cell_lt(a: Option<Seq<u8>>, b: Option<Seq<u8>>, opts: crate::SortOptions) -> bool {
    match (a, b) {
        (Option::None, Option::None) => false,
        (Option::None, Option::Some(_)) => opts.nulls_first,
        (Option::Some(_), Option::None) => !opts.nulls_first,
        (Option::Some(x), Option::Some(y)) => if opts.descending {
            lex_lt(y, x)
        } else {
            lex_lt(x, y)
        },
    }
}

/// Two distinct terminated keys always diverge before either ends: the
/// terminator is the only zero byte, so neither can be a proper prefix of
/// the other.
proof fn lemma_keys_not_prefix(a: Seq<u8>, b: Seq<u8>)
    requires
        key_shape(a),
        key_shape(b),
        a != b,
    ensures
        !is_prefix(a, b),
        !is_prefix(b, a),
{
    if is_prefix(a, b) {
        assert(a.len() < b.len()) by {
            if a.len() == b.len() {
                assert(a =~= b.take(a.len() as int));
                assert(b.take(b.len() as int) =~= b);
            }
        }
        assert(a[a.len() - 1] == b.take(a.len() as int)[a.len() - 1]);
        assert(b[a.len() - 1] == 0u8);
        assert(b.drop_last()[a.len() - 1] != 0u8);
    }
    if is_prefix(b, a) {
        assert(b.len() < a.len()) by {
            if b.len() == a.len() {
                assert(b =~= a.take(b.len() as int));
                assert(a.take(a.len() as int) =~= a);
            }
        }
        assert(b[b.len() - 1] == a.take(b.len() as int)[b.len() - 1]);
        assert(a[b.len() - 1] == 0u8);
        assert(a.drop_last()[b.len() - 1] != 0u8);
    }
}

/// Inverting two strings that diverge (neither a prefix of the other)
/// reverses their order.
proof fn lemma_lex_invert_diverge(u: Seq<u8>, v: Seq<u8>)
    requires
        !is_prefix(u, v),
        !is_prefix(v, u),
    ensures
        lex_lt(invert_bytes(u), invert_bytes(v)) == lex_lt(v, u),
    decreases u.len(),
{
    if u.len() == 0 {
        assert(u =~= v.take(u.len() as int));
    } else if v.len() == 0 {
        assert(v =~= u.take(v.len() as int));
    } else {
        if u[0] == v[0] {
            assert(!is_prefix(u.skip(1), v.skip(1))) by {
                if is_prefix(u.skip(1), v.skip(1)) {
                    assert forall|m: int| 0 <= m < u.len() implies u[m] == v.take(
                        u.len() as int,
                    )[m] by {
                        if m > 0 {
                            assert(u[m] == u.skip(1)[m - 1]);
                            assert(u.skip(1)[m - 1] == v.skip(1).take(
                                u.skip(1).len() as int,
                            )[m - 1]);
                        }
                    }
                    assert(u =~= v.take(u.len() as int));
                }
            }
            assert(!is_prefix(v.skip(1), u.skip(1))) by {
                if is_prefix(v.skip(1), u.skip(1)) {
                    assert forall|m: int| 0 <= m < v.len() implies v[m] == u.take(
                        v.len() as int,
                    )[m] by {
                        if m > 0 {
                            assert(v[m] == v.skip(1)[m - 1]);
                            assert(v.skip(1)[m - 1] == u.skip(1).take(
                                v.skip(1).len() as int,
                            )[m - 1]);
                        }
                    }
                    assert(v =~= u.take(v.len() as int));
                }
            }
            lemma_lex_invert_diverge(u.skip(1), v.skip(1));
            assert(invert_bytes(u).skip(1) =~= invert_bytes(u.skip(1)));
            assert(invert_bytes(v).skip(1) =~= invert_bytes(v.skip(1)));
            assert(invert_bytes(u)[0] == invert_byte(u[0]));
            assert(invert_bytes(v)[0] == invert_byte(v[0]));
        } else {
            assert(invert_bytes(u)[0] == invert_byte(u[0]));
            assert(invert_bytes(v)[0] == invert_byte(v[0]));
        }
    }
}

/// Unsigned lexicographic order of two encoded dictionary cells equals the
/// comparison of their normalized keys under the sort option.
pub proof fn lemma_dict_cell_order(a: Option<Seq<u8>>, b: Option<Seq<u8>>, opts: crate::SortOptions)
    requires
        a matches Option::Some(k) ==> key_shape(k),
        b matches Option::Some(k) ==> key_shape(k),
    ensures
        lex_lt(dict_cell_spec(a, opts), dict_cell_spec(b, opts)) == dict_cell_lt(a, b, opts),
{
    let ca = dict_cell_spec(a, opts);
    let cb = dict_cell_spec(b, opts);
    let sent = crate::null_sentinel_spec(opts);
    match (a, b) {
        (Option::None, Option::None) => {
            lemma_lex_irrefl(ca);
        },
        (Option::None, Option::Some(y)) => {
            let body = seq![1u8] + y;
            assert(cb[0] == if opts.descending {
                invert_byte(body[0])
            } else {
                body[0]
            });
            if sent < cb[0] {
                lemma_lex_diverge(ca, cb, 0);
            } else {
                lemma_lex_diverge(cb, ca, 0);
                lemma_lex_asym(cb, ca);
            }
        },
        (Option::Some(x), Option::None) => {
            let body = seq![1u8] + x;
            assert(ca[0] == if opts.descending {
                invert_byte(body[0])
            } else {
                body[0]
            });
            if ca[0] < sent {
                lemma_lex_diverge(ca, cb, 0);
            } else {
                lemma_lex_diverge(cb, ca, 0);
                lemma_lex_asym(cb, ca);
            }
        },
        (Option::Some(x), Option::Some(y)) => {
            let bx = seq![1u8] + x;
            let bt = seq![1u8] + y;
            lemma_lex_common_prefix(seq![1u8], x, y);
            lemma_lex_common_prefix(seq![1u8], y, x);
            if opts.descending {
                if x == y {
                    assert(bx =~= bt);
                    lemma_lex_irrefl(invert_bytes(bx));
                    lemma_lex_irrefl(x);
                } else {
                    lemma_keys_not_prefix(x, y);
                    assert(!is_prefix(bx, bt)) by {
                        if is_prefix(bx, bt) {
                            assert forall|m: int| 0 <= m < x.len() implies x[m] == y.take(
                                x.len() as int,
                            )[m] by {
                                assert(bx[m + 1] == bt.take(bx.len() as int)[m + 1]);
                            }
                            assert(x =~= y.take(x.len() as int));
                        }
                    }
                    assert(!is_prefix(bt, bx)) by {
                        if is_prefix(bt, bx) {
                            assert forall|m: int| 0 <= m < y.len() implies y[m] == x.take(
                                y.len() as int,
                            )[m] by {
                                assert(bt[m + 1] == bx.take(bt.len() as int)[m + 1]);
                            }
                            assert(y =~= x.take(y.len() as int));
                        }
                    }
                    lemma_lex_invert_diverge(bx, bt);
                }
                assert(ca == invert_bytes(bx));
                assert(cb == invert_bytes(bt));
            } else {
                assert(ca == bx);
                assert(cb == bt);
            }
        },
    }
}


/// Two dictionary cells are either equal or diverge before either ends: a
/// null cell and a present cell differ in their first byte, and two
/// present cells diverge inside their keys, which are never prefixes of
/// one another.
pub proof fn lemma_dict_cells_diverge(
    a: Option<Seq<u8>>,
    b: Option<Seq<u8>>,
    opts: crate::SortOptions,
)
    requires
        a matches Option::Some(k) ==> key_shape(k),
        b matches Option::Some(k) ==> key_shape(k),
    ensures
        crate::fixed::segments_comparable(dict_cell_spec(a, opts), dict_cell_spec(b, opts)),
{
    let ca = dict_cell_spec(a, opts);
    let cb = dict_cell_spec(b, opts);
    match (a, b) {
        (Option::None, Option::None) => {
            assert(ca =~= cb);
        },
        (Option::None, Option::Some(y)) => {
            let body = seq![1u8] + y;
            assert(cb[0] == if opts.descending {
                invert_byte(body[0])
            } else {
                body[0]
            });
            assert(ca[0] != cb[0]);
            assert(cb.take(ca.len() as int)[0] == cb[0]);
        },
        (Option::Some(x), Option::None) => {
            let body = seq![1u8] + x;
            assert(ca[0] == if opts.descending {
                invert_byte(body[0])
            } else {
                body[0]
            });
            assert(ca[0] != cb[0]);
            assert(ca.take(cb.len() as int)[0] == ca[0]);
        },
        (Option::Some(x), Option::Some(y)) => {
            if x == y {
                assert(ca =~= cb);
            } else {
                lemma_keys_not_prefix(x, y);
                let ba = seq![1u8] + x;
                let bb = seq![1u8] + y;
                assert(!is_prefix(ca, cb)) by {
                    if is_prefix(ca, cb) {
                        assert forall|m: int| 0 <= m < x.len() implies x[m] == y.take(
                            x.len() as int,
                        )[m] by {
                            assert(ca[m + 1] == cb.take(ca.len() as int)[m + 1]);
                            if opts.descending {
                                assert(ca[m + 1] == invert_byte(ba[m + 1]));
                                assert(cb[m + 1] == invert_byte(bb[m + 1]));
                            }
                        }
                        assert(x =~= y.take(x.len() as int));
                    }
                }
                assert(!is_prefix(cb, ca)) by {
                    if is_prefix(cb, ca) {
                        assert forall|m: int| 0 <= m < y.len() implies y[m] == x.take(
                            y.len() as int,
                        )[m] by {
                            assert(cb[m + 1] == ca.take(cb.len() as int)[m + 1]);
                            if opts.descending {
                                assert(ca[m + 1] == invert_byte(ba[m + 1]));
                                assert(cb[m + 1] == invert_byte(bb[m + 1]));
                            }
                        }
                        assert(y =~= x.take(y.len() as int));
                    }
                }
            }
        },
    }
}

/// No occurrence of the terminator up to the end means the scan fails.
pub proof fn lemma_first_term_none(s: Seq<u8>, from: int, term: u8)
    requires
        0 <= from,
        forall|m: int| from <= m < s.len() ==> s[m] != term,
    ensures
        first_term(s, from, term) is None,
    decreases s.len() - from,
{
    if from < s.len() {
        lemma_first_term_none(s, from + 1, term);
    }
}

/// Reads one dictionary cell at the cursor of one row.
fn decode_dict_cell(row: &Vec<u8>, pos: &mut usize, opts: crate::SortOptions) -> (r: Result<
    Option<Vec<u8>>,
    crate::CodecError,
>)
    requires
        *old(pos) <= row@.len(),
    ensures
        match dict_cell_scan(row@.skip(*old(pos) as int), opts) {
            Option::Some(vc) => {
                &&& r is Ok
                &&& (r->Ok_0 matches Option::Some(k) ==> vc.0 == Option::Some(k@))
                &&& (r->Ok_0 is None <==> vc.0 is None)
                &&& *final(pos) == *old(pos) + vc.1
                &&& vc.1 <= row@.len() - *old(pos)
            },
            Option::None => r == Err::<Option<Vec<u8>>, crate::CodecError>(
                crate::CodecError::MalformedRow,
            ) && *final(pos) == *old(pos),
        },
{
    proof {
        assert(row.len() == row@.len());
    }
    let sent = crate::null_sentinel(opts);
    let term: u8 = if opts.descending {
        255
    } else {
        0
    };
    let ghost s = row@.skip(*old(pos) as int);
    if *pos >= row.len() {
        return Err(crate::CodecError::MalformedRow);
    }
    let b0 = row[*pos];
    proof {
        assert(s[0] == row@[*old(pos) as int]);
    }
    if b0 == sent {
        *pos = *pos + 1;
        return Ok(Option::None);
    }
    let start = *pos;
    let mut j: usize = start + 1;
    while j < row.len()
        invariant_except_break
            start + 1 <= j <= row@.len(),
            row@.len() <= usize::MAX,
            s == row@.skip(start as int),
            start < row@.len(),
            forall|m: int| start + 1 <= m < j ==> row@[m] != term,
        ensures
            start + 1 <= j <= row@.len(),
            s == row@.skip(start as int),
            start < row@.len(),
            forall|m: int| start + 1 <= m < j ==> row@[m] != term,
            j < row@.len() ==> row@[j as int] == term,
        decreases row@.len() - j,
    {
        if row[j] == term {
            break ;
        }
        j = j + 1;
    }
    if j >= row.len() {
        proof {
            assert forall|m: int| 1 <= m < s.len() implies s[m] != term by {
                assert(s[m] == row@[start + m]);
            }
            lemma_first_term_none(s, 1, term);
        }
        return Err(crate::CodecError::MalformedRow);
    }
    proof {
        assert(s[j - start] == row@[j as int]);
        assert forall|m: int| 1 <= m < j - start implies s[m] != term by {
            assert(s[m] == row@[start + m]);
        }
        lemma_first_term_found(s, 1, term, j - start);
    }
    let wire = crate::fixed::from_slice(
        vstd::slice::slice_subrange(row.as_slice(), start + 1, j + 1),
        opts.descending,
    );
    proof {
        let jj = j - start;
        assert(row@.subrange(start + 1, j + 1) =~= s.subrange(1, jj + 1));
    }
    *pos = j + 1;
    proof {
        assert(*pos == *old(pos) + (j - start + 1));
    }
    Ok(Option::Some(wire))
}

/// The dictionary key type's index capacity: the largest dense index the
/// key integer can represent.
#[derive(Clone, Copy, PartialEq, Eq, Structural, Debug)]
pub enum DictionaryKeyType {
    Int8,
    Int16,
    Int32,
    Int64,
    UInt8,
    UInt16,
    UInt32,
    UInt64,
}

impl DictionaryKeyType {
    pub open spec fn max_index_spec(self) -> int {
        match self {
            DictionaryKeyType::Int8 => 0x7f,
            DictionaryKeyType::Int16 => 0x7fff,
            DictionaryKeyType::Int32 => 0x7fffffff,
            DictionaryKeyType::Int64 => 0x7fffffffffffffff,
            DictionaryKeyType::UInt8 => 0xff,
            DictionaryKeyType::UInt16 => 0xffff,
            DictionaryKeyType::UInt32 => 0xffffffff,
            DictionaryKeyType::UInt64 => 0xffffffffffffffff,
        }
    }

    pub fn max_index(&self) -> (r: u64)
        ensures
            r == self.max_index_spec(),
    {
        match self {
            DictionaryKeyType::Int8 => 0x7f,
            DictionaryKeyType::Int16 => 0x7fff,
            DictionaryKeyType::Int32 => 0x7fffffff,
            DictionaryKeyType::Int64 => 0x7fffffffffffffff,
            DictionaryKeyType::UInt8 => 0xff,
            DictionaryKeyType::UInt16 => 0xffff,
            DictionaryKeyType::UInt32 => 0xffffffff,
            DictionaryKeyType::UInt64 => 0xffffffffffffffff,
        }
    }
}

/// The normalized key scanned at a row's cursor: `None` for a null row and
/// for a malformed row alike.
pub open spec fn scanned_key(row: Seq<u8>, p: nat, opts: crate::SortOptions) -> Option<Seq<u8>> {
    match dict_cell_scan(row.skip(p as int), opts) {
        Option::Some(vc) => vc.0,
        Option::None => Option::None,
    }
}

/// Row `k` carries a normalized key that no earlier row carries.
pub open spec fn fresh_key_at(
    rows: Seq<Vec<u8>>,
    pos: Seq<usize>,
    opts: crate::SortOptions,
    k: int,
) -> bool {
    scanned_key(rows[k]@, pos[k] as nat, opts) is Some && (forall|j: int|
        0 <= j < k ==> #[trigger] scanned_key(rows[j]@, pos[j] as nat, opts) != scanned_key(
            rows[k]@,
            pos[k] as nat,
            opts,
        ))
}

/// How many distinct normalized keys the first `k` rows carry.
pub open spec fn dict_distinct_count(
    rows: Seq<Vec<u8>>,
    pos: Seq<usize>,
    opts: crate::SortOptions,
    k: int,
) -> int
    decreases k,
{
    if k <= 0 {
        0
    } else {
        dict_distinct_count(rows, pos, opts, k - 1) + (if fresh_key_at(rows, pos, opts, k - 1) {
            1int
        } else {
            0int
        })
    }
}

pub proof fn lemma_dict_distinct_monotone(
    rows: Seq<Vec<u8>>,
    pos: Seq<usize>,
    opts: crate::SortOptions,
    a: int,
    b: int,
)
    requires
        a <= b,
    ensures
        dict_distinct_count(rows, pos, opts, a) <= dict_distinct_count(rows, pos, opts, b),
    decreases b - a,
{
    if a < b {
        lemma_dict_distinct_monotone(rows, pos, opts, a, b - 1);
    }
}

/// The byte string `v` is the interned value whose normalized key is `k`.
pub open spec fn interned_value_is(it: OrderPreservingInterner, k: Seq<u8>, v: Seq<u8>) -> bool {
    exists|h: int| 0 <= h < it.len_spec() && #[trigger] it.key(h) == k && v == it.val(h)
}

/// The distinct normalized keys of the first `k` rows, in the order of
/// their first appearance: the order spec section 4.4 fixes for the child
/// values.
pub open spec fn distinct_keys_seq(
    rows: Seq<Vec<u8>>,
    pos: Seq<usize>,
    opts: crate::SortOptions,
    k: int,
) -> Seq<Seq<u8>>
    decreases k,
{
    if k <= 0 {
        Seq::empty()
    } else {
        let prev = distinct_keys_seq(rows, pos, opts, k - 1);
        if fresh_key_at(rows, pos, opts, k - 1) {
            prev.push(scanned_key(rows[k - 1]@, pos[k - 1] as nat, opts)->0)
        } else {
            prev
        }
    }
}

/// The first-appearance sequence counts exactly the distinct keys.
pub proof fn lemma_distinct_keys_len(
    rows: Seq<Vec<u8>>,
    pos: Seq<usize>,
    opts: crate::SortOptions,
    k: int,
)
    ensures
        distinct_keys_seq(rows, pos, opts, k).len() == (if k <= 0 {
            0int
        } else {
            dict_distinct_count(rows, pos, opts, k)
        }),
    decreases k,
{
    if k > 0 {
        lemma_distinct_keys_len(rows, pos, opts, k - 1);
    }
}


/// Dictionary round trip, encoder to decoder: rows whose suffixes are
/// exactly what `encode_dictionary` writes (one encoded cell, then the rest
/// of the row) scan back to exactly the normalized keys that were written.
/// Together with the capacity premise this discharges the success condition
/// of `decode_dictionary`, whose contract then returns the original logical
/// column: the same nulls, and for every present row the interned value of
/// its normalized key, deduplicated in first-appearance order.
pub proof fn lemma_dictionary_round_trip(
    it: OrderPreservingInterner,
    opts: crate::SortOptions,
    rows: Seq<Vec<u8>>,
    pos: Seq<usize>,
    nks: Seq<Option<Seq<u8>>>,
    tails: Seq<Seq<u8>>,
)
    requires
        it.wf(),
        nks.len() == rows.len(),
        tails.len() == rows.len(),
        pos.len() == rows.len(),
        forall|i: int|
            0 <= i < rows.len() ==> #[trigger] rows[i]@.skip(pos[i] as int) == dict_cell_spec(
                nks[i],
                opts,
            ) + tails[i],
        forall|i: int|
            0 <= i < rows.len() ==> ((#[trigger] nks[i]) matches Option::Some(k) ==> key_shape(k)
                && interned_value_exists(it, k)),
    ensures
        forall|i: int|
            0 <= i < rows.len() ==> dict_cell_scan(
                #[trigger] rows[i]@.skip(pos[i] as int),
                opts,
            ) == Option::Some((nks[i], dict_cell_len(nks[i]))),
        forall|i: int|
            0 <= i < rows.len() ==> #[trigger] scanned_key(rows[i]@, pos[i] as nat, opts)
                == nks[i],
        forall|i: int|
            0 <= i < rows.len() ==> ((#[trigger] scanned_key(rows[i]@, pos[i] as nat, opts))
                matches Option::Some(k) ==> exists|h: int|
                0 <= h < it.len_spec() && #[trigger] it.key(h) == k),
{
    assert forall|i: int| 0 <= i < rows.len() implies dict_cell_scan(
        #[trigger] rows[i]@.skip(pos[i] as int),
        opts,
    ) == Option::Some((nks[i], dict_cell_len(nks[i]))) by {
        lemma_dict_cell_round_trip(nks[i], tails[i], opts);
    }
    assert forall|i: int|
        0 <= i < rows.len() implies ((#[trigger] scanned_key(rows[i]@, pos[i] as nat, opts))
        matches Option::Some(k) ==> exists|h: int|
        0 <= h < it.len_spec() && #[trigger] it.key(h) == k) by {
        if scanned_key(rows[i]@, pos[i] as nat, opts) is Some {
            assert(nks[i] is Some);
            assert(interned_value_exists(it, nks[i]->0));
        }
    }
}

/// Some handle of the interner carries this normalized key.
pub open spec fn interned_value_exists(it: OrderPreservingInterner, k: Seq<u8>) -> bool {
    exists|h: int| 0 <= h < it.len_spec() && #[trigger] it.key(h) == k
}

/// A decoded dictionary column: per row a dense key and a validity flag;
/// per dense key the interned value bytes, in first-appearance order.
pub struct DecodedDictionary {
    pub keys: Vec<u64>,
    pub valid: Vec<bool>,
    pub values: Vec<Vec<u8>>,
}

/// Decodes the keys of a dictionary column off the rows' cursors,
/// deduplicating values through the interner. Succeeds exactly when every
/// row scans, every scanned key is interned, and the distinct values fit
/// the key type.
#[verifier::rlimit(80)]
pub fn decode_dictionary(
    interner: &OrderPreservingInterner,
    opts: crate::SortOptions,
    rows: &Vec<Vec<u8>>,
    pos: &mut Vec<usize>,
    key_type: DictionaryKeyType,
) -> (r: Result<DecodedDictionary, crate::CodecError>)
    requires
        interner.wf(),
        old(pos)@.len() == rows@.len(),
        forall|i: int| 0 <= i < rows@.len() ==> old(pos)@[i] <= rows@[i]@.len(),
    ensures
        r is Ok <==> ((forall|i: int|
            0 <= i < rows@.len() ==> dict_cell_scan(
                #[trigger] rows@[i]@.skip(old(pos)@[i] as int),
                opts,
            ) is Some) && (forall|i: int|
            0 <= i < rows@.len() ==> ((#[trigger] scanned_key(
                rows@[i]@,
                old(pos)@[i] as nat,
                opts,
            )) matches Option::Some(k) ==> exists|h: int|
                0 <= h < interner.len_spec() && #[trigger] interner.key(h) == k))
            && dict_distinct_count(rows@, old(pos)@, opts, rows@.len() as int)
            <= key_type.max_index_spec() + 1),
        r matches Ok(col) ==> {
            &&& col.keys@.len() == rows@.len()
            &&& col.valid@.len() == rows@.len()
            &&& final(pos)@.len() == rows@.len()
            &&& col.values@.len() == dict_distinct_count(rows@, old(pos)@, opts, rows@.len() as int)
            &&& col.values@.len() <= key_type.max_index_spec() + 1
            &&& forall|d1: int, d2: int|
                0 <= d1 < d2 < col.values@.len() ==> (#[trigger] col.values@[d1])@
                    != (#[trigger] col.values@[d2])@
            &&& col.values@.len() == distinct_keys_seq(
                rows@,
                old(pos)@,
                opts,
                rows@.len() as int,
            ).len()
            &&& forall|d: int|
                #![trigger col.values@[d]]
                0 <= d < col.values@.len() ==> interned_value_is(
                    *interner,
                    distinct_keys_seq(rows@, old(pos)@, opts, rows@.len() as int)[d],
                    col.values@[d]@,
                )
            &&& forall|i: int|
                #![trigger rows@[i]]
                0 <= i < rows@.len() ==> {
                    let vc = dict_cell_scan(rows@[i]@.skip(old(pos)@[i] as int), opts)->0;
                    &&& final(pos)@[i] == old(pos)@[i] + vc.1
                    &&& col.valid@[i] == (vc.0 is Some)
                    &&& (vc.0 matches Option::Some(k) ==> col.keys@[i] < col.values@.len()
                        && exists|h: int|
                        0 <= h < interner.len_spec() && #[trigger] interner.key(h) == k
                            && col.values@[col.keys@[i] as int]@ == interner.val(h))
                    &&& (vc.0 is None ==> col.keys@[i] == 0)
                }
        },
        r is Err ==> (r == Err::<DecodedDictionary, crate::CodecError>(
            crate::CodecError::MalformedRow,
        ) || r == Err::<DecodedDictionary, crate::CodecError>(
            crate::CodecError::InternerInvariantViolation,
        ) || r == Err::<DecodedDictionary, crate::CodecError>(
            crate::CodecError::DictionaryKeyOverflow,
        )),
        r == Err::<DecodedDictionary, crate::CodecError>(crate::CodecError::MalformedRow)
            ==> exists|i: int|
            0 <= i < rows@.len() && dict_cell_scan(
                #[trigger] rows@[i]@.skip(old(pos)@[i] as int),
                opts,
            ) is None,
        r == Err::<DecodedDictionary, crate::CodecError>(
            crate::CodecError::InternerInvariantViolation,
        ) ==> exists|i: int|
            0 <= i < rows@.len() && ((#[trigger] scanned_key(
                rows@[i]@,
                old(pos)@[i] as nat,
                opts,
            )) matches Option::Some(k) && (forall|h: int|
                0 <= h < interner.len_spec() ==> #[trigger] interner.key(h) != k)),
        r == Err::<DecodedDictionary, crate::CodecError>(crate::CodecError::DictionaryKeyOverflow)
            ==> dict_distinct_count(rows@, old(pos)@, opts, rows@.len() as int)
            > key_type.max_index_spec() + 1,
{
    let n = rows.len();
    let max_key = key_type.max_index();
    let mut keys: Vec<u64> = Vec::new();
    let mut valid: Vec<bool> = Vec::new();
    let mut values: Vec<Vec<u8>> = Vec::new();
    // handle -> dense index, for handles seen so far
    let mut seen: Vec<Option<usize>> = Vec::new();
    let mut t: usize = 0;
    let interner_len = interner.len();
    while t < interner_len
        invariant
            seen@.len() == t,
            0 <= t <= interner_len,
            forall|h: int| 0 <= h < t ==> seen@[h] is None,
        decreases interner_len - t,
    {
        seen.push(Option::None);
        t = t + 1;
    }
    let ghost mut d2h: Seq<int> = Seq::empty();
    let mut i: usize = 0;
    while i < n
        invariant
            0 <= i <= n,
            n == rows@.len(),
            interner.wf(),
            interner_len == interner.len_spec(),
            pos@.len() == n,
            old(pos)@.len() == n,
            forall|j: int| 0 <= j < rows@.len() ==> old(pos)@[j] <= rows@[j]@.len(),
            forall|j: int| i <= j < n ==> pos@[j] == old(pos)@[j],
            keys@.len() == i,
            valid@.len() == i,
            seen@.len() == interner_len,
            max_key == key_type.max_index_spec(),
            values@.len() <= max_key + 1,
            values@.len() == dict_distinct_count(rows@, old(pos)@, opts, i as int),
            forall|j: int|
                0 <= j < i ==> dict_cell_scan(
                    #[trigger] rows@[j]@.skip(old(pos)@[j] as int),
                    opts,
                ) is Some,
            forall|j: int|
                #![trigger rows@[j]]
                0 <= j < i ==> {
                    let vc = dict_cell_scan(rows@[j]@.skip(old(pos)@[j] as int), opts)->0;
                    &&& pos@[j] == old(pos)@[j] + vc.1
                    &&& valid@[j] == (vc.0 is Some)
                    &&& (vc.0 matches Option::Some(k) ==> keys@[j] < values@.len() && exists|
                        h: int,
                    |
                        0 <= h < interner.len_spec() && #[trigger] interner.key(h) == k
                            && values@[keys@[j] as int]@ == interner.val(h))
                    &&& (vc.0 is None ==> keys@[j] == 0)
                },
            forall|h: int|
                0 <= h < interner_len ==> ((#[trigger] seen@[h]) matches Option::Some(d) ==> d
                    < values@.len() && values@[d as int]@ == interner.val(h)),
            forall|h: int|
                0 <= h < interner_len ==> ((#[trigger] seen@[h]) is Some <==> exists|j: int|
                    0 <= j < i && #[trigger] scanned_key(rows@[j]@, old(pos)@[j] as nat, opts)
                        == Option::Some(interner.key(h))),
            d2h.len() == values@.len(),
            distinct_keys_seq(rows@, old(pos)@, opts, i as int).len() == values@.len(),
            forall|d: int|
                #![trigger d2h[d]]
                0 <= d < values@.len() ==> 0 <= d2h[d] < interner_len && seen@[d2h[d]]
                    == Option::Some(d as usize) && values@[d]@ == interner.val(d2h[d])
                    && interner.key(d2h[d]) == distinct_keys_seq(
                    rows@,
                    old(pos)@,
                    opts,
                    i as int,
                )[d],
            forall|d1: int, d2: int|
                0 <= d1 < d2 < values@.len() ==> (#[trigger] values@[d1])@
                    != (#[trigger] values@[d2])@,
        decreases n - i,
    {
        let mut p: usize = pos[i];
        let cell = decode_dict_cell(&rows[i], &mut p, opts);
        match cell {
            Err(e) => {
                proof {
                    assert(dict_cell_scan(rows@[i as int]@.skip(old(pos)@[i as int] as int), opts)
                        is None);
                }
                return Err(crate::CodecError::MalformedRow);
            },
            Ok(Option::None) => {
                keys.push(0);
                valid.push(false);
                pos.set(i, p);
                proof {
                    assert(scanned_key(rows@[i as int]@, old(pos)@[i as int] as nat, opts)
                        is None);
                    assert(!fresh_key_at(rows@, old(pos)@, opts, i as int));
                    assert(dict_distinct_count(rows@, old(pos)@, opts, i + 1)
                        == dict_distinct_count(rows@, old(pos)@, opts, i as int));
                }
                proof {
                    assert forall|h2: int|
                        0 <= h2 < interner_len implies ((#[trigger] seen@[h2]) is Some <==> exists|
                        j: int,
                    |
                        0 <= j < i + 1 && #[trigger] scanned_key(
                            rows@[j]@,
                            old(pos)@[j] as nat,
                            opts,
                        ) == Option::Some(interner.key(h2))) by {
                        if seen@[h2] is Some {
                            let wit = choose|j: int|
                                0 <= j < i && #[trigger] scanned_key(
                                    rows@[j]@,
                                    old(pos)@[j] as nat,
                                    opts,
                                ) == Option::Some(interner.key(h2));
                            assert(0 <= wit < i + 1 && scanned_key(
                                rows@[wit]@,
                                old(pos)@[wit] as nat,
                                opts,
                            ) == Option::Some(interner.key(h2)));
                        } else {
                            if exists|j: int|
                                0 <= j < i + 1 && #[trigger] scanned_key(
                                    rows@[j]@,
                                    old(pos)@[j] as nat,
                                    opts,
                                ) == Option::Some(interner.key(h2)) {
                                let wit = choose|j: int|
                                    0 <= j < i + 1 && #[trigger] scanned_key(
                                        rows@[j]@,
                                        old(pos)@[j] as nat,
                                        opts,
                                    ) == Option::Some(interner.key(h2));
                                assert(wit != i) by {
                                    if wit == i {
                                        assert(scanned_key(
                                            rows@[i as int]@,
                                            old(pos)@[i as int] as nat,
                                            opts,
                                        ) is None);
                                    }
                                }
                                assert(0 <= wit < i && scanned_key(
                                    rows@[wit]@,
                                    old(pos)@[wit] as nat,
                                    opts,
                                ) == Option::Some(interner.key(h2)));
                            }
                        }
                    }
                }
            },
            Ok(Option::Some(plain)) => {
                let ghost k_spec = scanned_key(
                    rows@[i as int]@,
                    old(pos)@[i as int] as nat,
                    opts,
                )->0;
                proof {
                    assert(plain@ == k_spec);
                }
                match interner.lookup(plain.as_slice()) {
                    Option::None => {
                        proof {
                            assert forall|h: int|
                                0 <= h < interner.len_spec() implies #[trigger] interner.key(h)
                                != k_spec by {}
                            assert(scanned_key(rows@[i as int]@, old(pos)@[i as int] as nat, opts)
                                == Option::Some(k_spec));
                        }
                        return Err(crate::CodecError::InternerInvariantViolation);
                    },
                    Option::Some(handle) => {
                        let h = handle.0;
                        let dense: usize = match seen[h] {
                            Option::Some(d) => {
                                proof {
                                    assert(seen@[h as int] is Some);
                                    let ghost wit = choose|j: int|
                                        0 <= j < i && #[trigger] scanned_key(
                                            rows@[j]@,
                                            old(pos)@[j] as nat,
                                            opts,
                                        ) == Option::Some(interner.key(h as int));
                                    assert(scanned_key(rows@[wit]@, old(pos)@[wit] as nat, opts)
                                        == Option::Some(k_spec));
                                    assert(scanned_key(
                                        rows@[i as int]@,
                                        old(pos)@[i as int] as nat,
                                        opts,
                                    ) == Option::Some(k_spec));
                                    assert(!fresh_key_at(rows@, old(pos)@, opts, i as int));
                                    assert(dict_distinct_count(rows@, old(pos)@, opts, i + 1)
                                        == dict_distinct_count(rows@, old(pos)@, opts, i as int));
                                }
                                d
                            },
                            Option::None => {
                                let d = values.len();
                                if (d as u64) > max_key {
                                    proof {
                                        assert(values@.len() == max_key + 1);
                                        assert(scanned_key(
                                            rows@[i as int]@,
                                            old(pos)@[i as int] as nat,
                                            opts,
                                        ) == Option::Some(k_spec));
                                        assert forall|j: int|
                                            0 <= j < i implies #[trigger] scanned_key(
                                            rows@[j]@,
                                            old(pos)@[j] as nat,
                                            opts,
                                        ) != Option::Some(k_spec) by {
                                            if scanned_key(rows@[j]@, old(pos)@[j] as nat, opts)
                                                == Option::Some(k_spec) {
                                                assert(interner.key(h as int) == k_spec);
                                                assert(seen@[h as int] is Some);
                                            }
                                        }
                                        assert(fresh_key_at(rows@, old(pos)@, opts, i as int))
                                            by {
                                            assert forall|j: int|
                                                0 <= j < i implies #[trigger] scanned_key(
                                                rows@[j]@,
                                                old(pos)@[j] as nat,
                                                opts,
                                            ) != scanned_key(
                                                rows@[i as int]@,
                                                old(pos)@[i as int] as nat,
                                                opts,
                                            ) by {
                                                if scanned_key(
                                                    rows@[j]@,
                                                    old(pos)@[j] as nat,
                                                    opts,
                                                ) == Option::Some(k_spec) {
                                                    assert(interner.key(h as int) == k_spec);
                                                    assert(seen@[h as int] is Some);
                                                }
                                            }
                                        }
                                        assert(dict_distinct_count(rows@, old(pos)@, opts, i + 1)
                                            == dict_distinct_count(
                                            rows@,
                                            old(pos)@,
                                            opts,
                                            i as int,
                                        ) + 1);
                                        lemma_dict_distinct_monotone(
                                            rows@,
                                            old(pos)@,
                                            opts,
                                            i + 1,
                                            n as int,
                                        );
                                        assert(dict_distinct_count(
                                            rows@,
                                            old(pos)@,
                                            opts,
                                            rows@.len() as int,
                                        ) > key_type.max_index_spec() + 1);
                                    }
                                    return Err(crate::CodecError::DictionaryKeyOverflow);
                                }
                                proof {
                                    assert(scanned_key(
                                        rows@[i as int]@,
                                        old(pos)@[i as int] as nat,
                                        opts,
                                    ) == Option::Some(k_spec));
                                    assert(fresh_key_at(rows@, old(pos)@, opts, i as int)) by {
                                        assert forall|j: int|
                                            0 <= j < i implies #[trigger] scanned_key(
                                            rows@[j]@,
                                            old(pos)@[j] as nat,
                                            opts,
                                        ) != scanned_key(
                                            rows@[i as int]@,
                                            old(pos)@[i as int] as nat,
                                            opts,
                                        ) by {
                                            if scanned_key(rows@[j]@, old(pos)@[j] as nat, opts)
                                                == Option::Some(k_spec) {
                                                assert(interner.key(h as int) == k_spec);
                                                assert(seen@[h as int] is Some);
                                            }
                                        }
                                    }
                                    assert(dict_distinct_count(rows@, old(pos)@, opts, i + 1)
                                        == dict_distinct_count(rows@, old(pos)@, opts, i as int)
                                        + 1);
                                    assert forall|d1: int|
                                        0 <= d1 < values@.len() implies (#[trigger] values@[d1])@
                                        != interner.val(h as int) by {
                                        let g = d2h[d1];
                                        assert(values@[d1]@ == interner.val(g));
                                        assert(g != h);
                                        crate::interner::lemma_interner_distinct(
                                            *interner,
                                            g,
                                            h as int,
                                        );
                                    }
                                }
                                values.push(crate::fixed::from_slice(
                                    interner.value(handle).as_slice(),
                                    false,
                                ));
                                seen.set(h, Option::Some(d));
                                proof {
                                    d2h = d2h.push(h as int);
                                    assert(distinct_keys_seq(rows@, old(pos)@, opts, i + 1)
                                        == distinct_keys_seq(
                                        rows@,
                                        old(pos)@,
                                        opts,
                                        i as int,
                                    ).push(k_spec));
                                    assert(interner.key(h as int) == k_spec);
                                    assert(seen@[h as int] == Option::Some(d));
                                    assert forall|dd: int|
                                        #![trigger d2h[dd]]
                                        0 <= dd < values@.len() implies 0 <= d2h[dd]
                                        < interner_len && seen@[d2h[dd]] == Option::Some(
                                        dd as usize,
                                    ) && values@[dd]@ == interner.val(d2h[dd]) by {
                                        if dd < values@.len() - 1 {
                                            assert(d2h[dd] != h as int);
                                        }
                                    }
                                }
                                d
                            },
                        };
                        keys.push(dense as u64);
                        valid.push(true);
                        pos.set(i, p);
                proof {
                    assert forall|h2: int|
                        0 <= h2 < interner_len implies ((#[trigger] seen@[h2]) is Some <==> exists|
                        j: int,
                    |
                        0 <= j < i + 1 && #[trigger] scanned_key(
                            rows@[j]@,
                            old(pos)@[j] as nat,
                            opts,
                        ) == Option::Some(interner.key(h2))) by {
                        if seen@[h2] is Some {
                            if interner.key(h2) == k_spec {
                                assert(0 <= i < i + 1 && scanned_key(
                                    rows@[i as int]@,
                                    old(pos)@[i as int] as nat,
                                    opts,
                                ) == Option::Some(interner.key(h2)));
                            } else {
                                assert(h2 != h as int);
                                let wit = choose|j: int|
                                    0 <= j < i && #[trigger] scanned_key(
                                        rows@[j]@,
                                        old(pos)@[j] as nat,
                                        opts,
                                    ) == Option::Some(interner.key(h2));
                                assert(0 <= wit < i + 1 && scanned_key(
                                    rows@[wit]@,
                                    old(pos)@[wit] as nat,
                                    opts,
                                ) == Option::Some(interner.key(h2)));
                            }
                        } else {
                            if exists|j: int|
                                0 <= j < i + 1 && #[trigger] scanned_key(
                                    rows@[j]@,
                                    old(pos)@[j] as nat,
                                    opts,
                                ) == Option::Some(interner.key(h2)) {
                                let wit = choose|j: int|
                                    0 <= j < i + 1 && #[trigger] scanned_key(
                                        rows@[j]@,
                                        old(pos)@[j] as nat,
                                        opts,
                                    ) == Option::Some(interner.key(h2));
                                assert(wit != i) by {
                                    if wit == i {
                                        assert(interner.key(h2) == k_spec);
                                        assert(interner.key(h as int) == k_spec);
                                        if h2 != h {
                                            crate::interner::lemma_interner_distinct(
                                                *interner,
                                                h2,
                                                h as int,
                                            );
                                        }
                                        assert(seen@[h2] is Some);
                                    }
                                }
                                assert(0 <= wit < i && scanned_key(
                                    rows@[wit]@,
                                    old(pos)@[wit] as nat,
                                    opts,
                                ) == Option::Some(interner.key(h2)));
                            }
                        }
                    }
                }
                    },
                }
            },
        }
        i = i + 1;
    }
    proof {
        lemma_distinct_keys_len(rows@, old(pos)@, opts, n as int);
        assert forall|d: int|
            #![trigger values@[d]]
            0 <= d < values@.len() implies interned_value_is(
            *interner,
            distinct_keys_seq(rows@, old(pos)@, opts, rows@.len() as int)[d],
            values@[d]@,
        ) by {
            let h = d2h[d];
            assert(0 <= h < interner.len_spec());
            assert(interner.key(h) == distinct_keys_seq(rows@, old(pos)@, opts, n as int)[d]);
            assert(values@[d]@ == interner.val(h));
            assert(distinct_keys_seq(rows@, old(pos)@, opts, rows@.len() as int)
                == distinct_keys_seq(rows@, old(pos)@, opts, n as int));
        }
    }
    Ok(DecodedDictionary { keys, valid, values })
}

/// The dictionary values of a column, one typed vector per supported value
/// type; floats appear as their bit patterns, strings as their bytes.
pub enum ColumnValues {
    Boolean(Vec<Option<bool>>),
    Int8(Vec<Option<i8>>),
    Int16(Vec<Option<i16>>),
    Int32(Vec<Option<i32>>),
    Int64(Vec<Option<i64>>),
    UInt8(Vec<Option<u8>>),
    UInt16(Vec<Option<u16>>),
    UInt32(Vec<Option<u32>>),
    UInt64(Vec<Option<u64>>),
    Float16(Vec<Option<crate::fixed::Float16Bits>>),
    Float32(Vec<Option<crate::fixed::Float32Bits>>),
    Float64(Vec<Option<crate::fixed::Float64Bits>>),
    Decimal128(Vec<Option<crate::fixed::RawDecimal<16>>>),
    Decimal256(Vec<Option<crate::fixed::RawDecimal<32>>>),
    Binary(Vec<Option<Vec<u8>>>),
    Utf8(Vec<Option<Vec<u8>>>),
}

/// The byte strings the interner receives for a values column: the
/// fixed-width payload for scalars, the raw bytes for strings and binary.
pub open spec fn dictionary_value_bytes(v: ColumnValues) -> Seq<Option<Seq<u8>>> {
    match v {
        ColumnValues::Boolean(c) => c@.map_values(|o: Option<bool>| payload_of(o)),
        ColumnValues::Int8(c) => c@.map_values(|o: Option<i8>| payload_of(o)),
        ColumnValues::Int16(c) => c@.map_values(|o: Option<i16>| payload_of(o)),
        ColumnValues::Int32(c) => c@.map_values(|o: Option<i32>| payload_of(o)),
        ColumnValues::Int64(c) => c@.map_values(|o: Option<i64>| payload_of(o)),
        ColumnValues::UInt8(c) => c@.map_values(|o: Option<u8>| payload_of(o)),
        ColumnValues::UInt16(c) => c@.map_values(|o: Option<u16>| payload_of(o)),
        ColumnValues::UInt32(c) => c@.map_values(|o: Option<u32>| payload_of(o)),
        ColumnValues::UInt64(c) => c@.map_values(|o: Option<u64>| payload_of(o)),
        ColumnValues::Float16(c) => c@.map_values(
            |o: Option<crate::fixed::Float16Bits>| payload_of(o),
        ),
        ColumnValues::Float32(c) => c@.map_values(
            |o: Option<crate::fixed::Float32Bits>| payload_of(o),
        ),
        ColumnValues::Float64(c) => c@.map_values(
            |o: Option<crate::fixed::Float64Bits>| payload_of(o),
        ),
        ColumnValues::Decimal128(c) => c@.map_values(
            |o: Option<crate::fixed::RawDecimal<16>>| decimal_payload_of(o),
        ),
        ColumnValues::Decimal256(c) => c@.map_values(
            |o: Option<crate::fixed::RawDecimal<32>>| decimal_payload_of(o),
        ),
        ColumnValues::Binary(c) => c@.map_values(|o: Option<Vec<u8>>| raw_payload_of(o)),
        ColumnValues::Utf8(c) => c@.map_values(|o: Option<Vec<u8>>| raw_payload_of(o)),
    }
}

pub open spec fn payload_of<T: FixedLengthEncoding>(o: Option<T>) -> Option<Seq<u8>> {
    match o {
        Option::Some(x) => Option::Some(x.encode_spec()),
        Option::None => Option::None,
    }
}

pub open spec fn decimal_payload_of<const N: usize>(o: Option<crate::fixed::RawDecimal<N>>) -> Option<
    Seq<u8>,
> {
    match o {
        Option::Some(x) => Option::Some(crate::fixed::decimal_encode_spec(x.0@)),
        Option::None => Option::None,
    }
}

pub open spec fn raw_payload_of(o: Option<Vec<u8>>) -> Option<Seq<u8>> {
    match o {
        Option::Some(x) => Option::Some(x@),
        Option::None => Option::None,
    }
}

/// Fixed-width payloads of an optional column, null cells passed through.
fn fixed_payloads<T: FixedLengthEncoding>(c: &Vec<Option<T>>) -> (r: Vec<Option<Vec<u8>>>)
    requires
        forall|i: int| 0 <= i < c@.len() ==> crate::fixed::cell_wf(c@[i]),
    ensures
        r@.len() == c@.len(),
        forall|i: int|
            0 <= i < c@.len() ==> raw_payload_of(#[trigger] r@[i]) == payload_of(c@[i]),
{
    let mut r: Vec<Option<Vec<u8>>> = Vec::new();
    let mut i: usize = 0;
    while i < c.len()
        invariant
            0 <= i <= c@.len(),
            forall|j: int| 0 <= j < c@.len() ==> crate::fixed::cell_wf(c@[j]),
            r@.len() == i,
            forall|j: int|
                0 <= j < i ==> raw_payload_of(#[trigger] r@[j]) == payload_of(c@[j]),
        decreases c@.len() - i,
    {
        match &c[i] {
            Option::Some(x) => {
                r.push(Option::Some(x.encode()));
            },
            Option::None => {
                r.push(Option::None);
            },
        }
        i = i + 1;
    }
    r
}

/// Decimal payloads of an optional column, null cells passed through.
fn decimal_payloads<const N: usize>(c: &Vec<Option<crate::fixed::RawDecimal<N>>>) -> (r: Vec<
    Option<Vec<u8>>,
>)
    ensures
        r@.len() == c@.len(),
        forall|i: int|
            0 <= i < c@.len() ==> raw_payload_of(#[trigger] r@[i]) == decimal_payload_of(c@[i]),
{
    let mut r: Vec<Option<Vec<u8>>> = Vec::new();
    let mut i: usize = 0;
    while i < c.len()
        invariant
            0 <= i <= c@.len(),
            r@.len() == i,
            forall|j: int|
                0 <= j < i ==> raw_payload_of(#[trigger] r@[j]) == decimal_payload_of(c@[j]),
        decreases c@.len() - i,
    {
        match &c[i] {
            Option::Some(x) => {
                r.push(Option::Some(x.encode()));
            },
            Option::None => {
                r.push(Option::None);
            },
        }
        i = i + 1;
    }
    r
}

/// Raw byte payloads of an optional string or binary column.
fn raw_payloads(c: &Vec<Option<Vec<u8>>>) -> (r: Vec<Option<Vec<u8>>>)
    ensures
        r@.len() == c@.len(),
        forall|i: int|
            0 <= i < c@.len() ==> raw_payload_of(#[trigger] r@[i]) == raw_payload_of(c@[i]),
{
    let mut r: Vec<Option<Vec<u8>>> = Vec::new();
    let mut i: usize = 0;
    while i < c.len()
        invariant
            0 <= i <= c@.len(),
            r@.len() == i,
            forall|j: int|
                0 <= j < i ==> raw_payload_of(#[trigger] r@[j]) == raw_payload_of(c@[j]),
        decreases c@.len() - i,
    {
        match &c[i] {
            Option::Some(x) => {
                r.push(Option::Some(crate::fixed::from_slice(x.as_slice(), false)));
            },
            Option::None => {
                r.push(Option::None);
            },
        }
        i = i + 1;
    }
    r
}

pub open spec fn column_values_len(v: ColumnValues) -> nat {
    dictionary_value_bytes(v).len()
}

/// Interns the dictionary values of a column: scalars as their fixed-width
/// payloads, strings and binary as their raw bytes; nulls pass through.
pub fn compute_dictionary_mapping(
    interner: &mut OrderPreservingInterner,
    values: &ColumnValues,
) -> (r: Vec<Option<Interned>>)
    requires
        old(interner).wf(),
    ensures
        final(interner).wf(),
        final(interner).len_spec() >= old(interner).len_spec(),
        forall|g: int|
            0 <= g < old(interner).len_spec() ==> final(interner).val(g) == old(interner).val(g)
                && final(interner).key(g) == old(interner).key(g),
        r@.len() == column_values_len(*values),
        forall|i: int|
            0 <= i < r@.len() ==> ((#[trigger] r@[i]) is Some <==> dictionary_value_bytes(
                *values,
            )[i] is Some),
        forall|i: int|
            0 <= i < r@.len() ==> ((#[trigger] r@[i]) matches Option::Some(h) ==> 0 <= h.0
                < final(interner).len_spec() && final(interner).val(h.0 as int)
                == dictionary_value_bytes(*values)[i]->0),
{
    let payloads: Vec<Option<Vec<u8>>> = match values {
        ColumnValues::Boolean(c) => fixed_payloads(c),
        ColumnValues::Int8(c) => fixed_payloads(c),
        ColumnValues::Int16(c) => fixed_payloads(c),
        ColumnValues::Int32(c) => fixed_payloads(c),
        ColumnValues::Int64(c) => fixed_payloads(c),
        ColumnValues::UInt8(c) => fixed_payloads(c),
        ColumnValues::UInt16(c) => fixed_payloads(c),
        ColumnValues::UInt32(c) => fixed_payloads(c),
        ColumnValues::UInt64(c) => fixed_payloads(c),
        ColumnValues::Float16(c) => fixed_payloads(c),
        ColumnValues::Float32(c) => fixed_payloads(c),
        ColumnValues::Float64(c) => fixed_payloads(c),
        ColumnValues::Decimal128(c) => decimal_payloads(c),
        ColumnValues::Decimal256(c) => decimal_payloads(c),
        ColumnValues::Binary(c) => raw_payloads(c),
        ColumnValues::Utf8(c) => raw_payloads(c),
    };
    proof {
        assert(payloads@.len() == dictionary_value_bytes(*values).len());
        assert forall|i: int|
            0 <= i < payloads@.len() implies raw_payload_of(#[trigger] payloads@[i])
            == dictionary_value_bytes(*values)[i] by {}
    }
    interner.intern(&payloads)
}

/// A materialized dictionary child: the dense values decoded by the value
/// type. Temporal values sit in the integer vector of their width; floats
/// appear as bit patterns, strings as bytes.
pub enum ChildColumn {
    Null(usize),
    Boolean(Vec<bool>),
    Int8(Vec<i8>),
    Int16(Vec<i16>),
    Int32(Vec<i32>),
    Int64(Vec<i64>),
    Int128(Vec<i128>),
    UInt8(Vec<u8>),
    UInt16(Vec<u16>),
    UInt32(Vec<u32>),
    UInt64(Vec<u64>),
    Float16(Vec<crate::fixed::Float16Bits>),
    Float32(Vec<crate::fixed::Float32Bits>),
    Float64(Vec<crate::fixed::Float64Bits>),
    Decimal128(Vec<crate::fixed::RawDecimal<16>>),
    Decimal256(Vec<crate::fixed::RawDecimal<32>>),
    Binary(Vec<Vec<u8>>),
    Utf8(Vec<Vec<u8>>),
}

/// The fixed payload width dictionary values of this type occupy; `None`
/// for types whose payloads vary (strings and binary) or are not read
/// (null columns).
pub open spec fn dict_payload_width(dt: crate::DataType) -> Option<nat> {
    match dt {
        crate::DataType::Boolean => Option::Some(1nat),
        crate::DataType::Int8 => Option::Some(1nat),
        crate::DataType::Int16 => Option::Some(2nat),
        crate::DataType::Int32 => Option::Some(4nat),
        crate::DataType::Int64 => Option::Some(8nat),
        crate::DataType::UInt8 => Option::Some(1nat),
        crate::DataType::UInt16 => Option::Some(2nat),
        crate::DataType::UInt32 => Option::Some(4nat),
        crate::DataType::UInt64 => Option::Some(8nat),
        crate::DataType::Float16 => Option::Some(2nat),
        crate::DataType::Float32 => Option::Some(4nat),
        crate::DataType::Float64 => Option::Some(8nat),
        crate::DataType::Timestamp(_) => Option::Some(8nat),
        crate::DataType::Date32 => Option::Some(4nat),
        crate::DataType::Date64 => Option::Some(8nat),
        crate::DataType::Time32(_) => Option::Some(4nat),
        crate::DataType::Time64(_) => Option::Some(8nat),
        crate::DataType::Duration(_) => Option::Some(8nat),
        crate::DataType::Interval(crate::IntervalUnit::YearMonth) => Option::Some(4nat),
        crate::DataType::Interval(crate::IntervalUnit::DayTime) => Option::Some(8nat),
        crate::DataType::Interval(crate::IntervalUnit::MonthDayNano) => Option::Some(16nat),
        crate::DataType::Decimal128(_, _) => Option::Some(16nat),
        crate::DataType::Decimal256(_, _) => Option::Some(32nat),
        crate::DataType::Null => Option::None,
        crate::DataType::Binary => Option::None,
        crate::DataType::Utf8 => Option::None,
    }
}

/// Every payload has the width the value type demands; vacuous for types
/// without a fixed width.
pub open spec fn dict_payloads_fit(dt: crate::DataType, values: Seq<Vec<u8>>) -> bool {
    match dict_payload_width(dt) {
        Option::Some(w) => forall|i: int|
            0 <= i < values.len() ==> (#[trigger] values[i])@.len() == w,
        Option::None => true,
    }
}

/// Which child a value type materializes from given payloads: the variant
/// of the type's physical layout, each element decoded by the type's codec.
pub open spec fn child_matches(dt: crate::DataType, values: Seq<Vec<u8>>, c: ChildColumn) -> bool {
    match dt {
        crate::DataType::Null => c matches ChildColumn::Null(nn) && nn == values.len(),
        crate::DataType::Boolean => c matches ChildColumn::Boolean(vs) && fixed_values_match(
            values,
            vs,
        ),
        crate::DataType::Int8 => c matches ChildColumn::Int8(vs) && fixed_values_match(values, vs),
        crate::DataType::Int16 => c matches ChildColumn::Int16(vs) && fixed_values_match(
            values,
            vs,
        ),
        crate::DataType::Int32 => c matches ChildColumn::Int32(vs) && fixed_values_match(
            values,
            vs,
        ),
        crate::DataType::Int64 => c matches ChildColumn::Int64(vs) && fixed_values_match(
            values,
            vs,
        ),
        crate::DataType::UInt8 => c matches ChildColumn::UInt8(vs) && fixed_values_match(
            values,
            vs,
        ),
        crate::DataType::UInt16 => c matches ChildColumn::UInt16(vs) && fixed_values_match(
            values,
            vs,
        ),
        crate::DataType::UInt32 => c matches ChildColumn::UInt32(vs) && fixed_values_match(
            values,
            vs,
        ),
        crate::DataType::UInt64 => c matches ChildColumn::UInt64(vs) && fixed_values_match(
            values,
            vs,
        ),
        crate::DataType::Float16 => c matches ChildColumn::Float16(vs) && fixed_values_match(
            values,
            vs,
        ),
        crate::DataType::Float32 => c matches ChildColumn::Float32(vs) && fixed_values_match(
            values,
            vs,
        ),
        crate::DataType::Float64 => c matches ChildColumn::Float64(vs) && fixed_values_match(
            values,
            vs,
        ),
        crate::DataType::Timestamp(_) => c matches ChildColumn::Int64(vs) && fixed_values_match(
            values,
            vs,
        ),
        crate::DataType::Date32 => c matches ChildColumn::Int32(vs) && fixed_values_match(
            values,
            vs,
        ),
        crate::DataType::Date64 => c matches ChildColumn::Int64(vs) && fixed_values_match(
            values,
            vs,
        ),
        crate::DataType::Time32(crate::TimeUnit::Second) => c matches ChildColumn::Int32(vs)
            && fixed_values_match(values, vs),
        crate::DataType::Time32(crate::TimeUnit::Millisecond) => c matches ChildColumn::Int32(vs)
            && fixed_values_match(values, vs),
        crate::DataType::Time64(crate::TimeUnit::Microsecond) => c matches ChildColumn::Int64(vs)
            && fixed_values_match(values, vs),
        crate::DataType::Time64(crate::TimeUnit::Nanosecond) => c matches ChildColumn::Int64(vs)
            && fixed_values_match(values, vs),
        crate::DataType::Duration(_) => c matches ChildColumn::Int64(vs) && fixed_values_match(
            values,
            vs,
        ),
        crate::DataType::Interval(crate::IntervalUnit::YearMonth) => c matches
            ChildColumn::Int32(vs) && fixed_values_match(values, vs),
        crate::DataType::Interval(crate::IntervalUnit::DayTime) => c matches ChildColumn::Int64(
            vs,
        ) && fixed_values_match(values, vs),
        crate::DataType::Interval(crate::IntervalUnit::MonthDayNano) => c matches
            ChildColumn::Int128(vs) && fixed_values_match(values, vs),
        crate::DataType::Decimal128(_, _) => c matches ChildColumn::Decimal128(vs)
            && decimal_values_match(values, vs),
        crate::DataType::Decimal256(_, _) => c matches ChildColumn::Decimal256(vs)
            && decimal_values_match(values, vs),
        crate::DataType::Binary => c matches ChildColumn::Binary(vs) && raw_values_match(
            values,
            vs,
        ),
        crate::DataType::Utf8 => c matches ChildColumn::Utf8(vs) && raw_values_match(values, vs),
        _ => false,
    }
}

/// Each element is the type's decode of its payload.
pub open spec fn fixed_values_match<T: FixedLengthEncoding>(
    values: Seq<Vec<u8>>,
    vs: Vec<T>,
) -> bool {
    vs@.len() == values.len() && (forall|i: int|
        0 <= i < values.len() ==> #[trigger] vs@[i] == T::decode_spec(values[i]@))
}

/// Each decimal is the decode of its payload.
pub open spec fn decimal_values_match<const N: usize>(
    values: Seq<Vec<u8>>,
    vs: Vec<crate::fixed::RawDecimal<N>>,
) -> bool {
    vs@.len() == values.len() && (forall|i: int|
        0 <= i < values.len() ==> (#[trigger] vs@[i]).0@ == crate::fixed::decimal_decode_spec(
            values[i]@,
        ) && vs@[i].wf())
}

/// Each byte string is copied through unchanged.
pub open spec fn raw_values_match(values: Seq<Vec<u8>>, vs: Vec<Vec<u8>>) -> bool {
    vs@.len() == values.len() && (forall|i: int|
        0 <= i < values.len() ==> (#[trigger] vs@[i])@ == values[i]@)
}

/// Whether the codec can materialize dictionary values of this type.
pub open spec fn dict_value_supported(dt: crate::DataType) -> bool {
    match dt {
        crate::DataType::Time32(crate::TimeUnit::Microsecond) => false,
        crate::DataType::Time32(crate::TimeUnit::Nanosecond) => false,
        crate::DataType::Time64(crate::TimeUnit::Second) => false,
        crate::DataType::Time64(crate::TimeUnit::Millisecond) => false,
        _ => true,
    }
}

/// Decodes a vector of fixed-width payloads, each exactly one value.
fn decode_fixed_values<T: FixedLengthEncoding>(values: &Vec<Vec<u8>>) -> (r: Result<
    Vec<T>,
    crate::CodecError,
>)
    ensures
        r is Ok <==> (forall|i: int|
            0 <= i < values@.len() ==> (#[trigger] values@[i])@.len() == T::width_spec()),
        r is Err ==> r == Err::<Vec<T>, crate::CodecError>(crate::CodecError::MalformedRow),
        r matches Ok(vs) ==> vs@.len() == values@.len() && (forall|i: int|
            0 <= i < values@.len() ==> #[trigger] vs@[i] == T::decode_spec(values@[i]@)),
{
    proof {
        T::lemma_width_small();
    }
    let w = T::width();
    let mut vs: Vec<T> = Vec::new();
    let mut i: usize = 0;
    while i < values.len()
        invariant
            0 <= i <= values@.len(),
            w as nat == T::width_spec(),
            vs@.len() == i,
            forall|j: int| 0 <= j < i ==> (#[trigger] values@[j])@.len() == T::width_spec(),
            forall|j: int| 0 <= j < i ==> #[trigger] vs@[j] == T::decode_spec(values@[j]@),
        decreases values@.len() - i,
    {
        if values[i].len() != w {
            return Err(crate::CodecError::MalformedRow);
        }
        vs.push(T::decode(values[i].as_slice()));
        i = i + 1;
    }
    Ok(vs)
}

/// Decodes a vector of decimal payloads, each exactly one decimal.
fn decode_decimal_values<const N: usize>(values: &Vec<Vec<u8>>) -> (r: Result<
    Vec<crate::fixed::RawDecimal<N>>,
    crate::CodecError,
>)
    ensures
        r is Ok <==> (forall|i: int| 0 <= i < values@.len() ==> (#[trigger] values@[i])@.len() == N),
        r is Err ==> r == Err::<Vec<crate::fixed::RawDecimal<N>>, crate::CodecError>(
            crate::CodecError::MalformedRow,
        ),
        r matches Ok(vs) ==> vs@.len() == values@.len() && (forall|i: int|
            0 <= i < values@.len() ==> (#[trigger] vs@[i]).0@ == crate::fixed::decimal_decode_spec(
                values@[i]@,
            ) && vs@[i].wf()),
{
    let mut vs: Vec<crate::fixed::RawDecimal<N>> = Vec::new();
    let mut i: usize = 0;
    while i < values.len()
        invariant
            0 <= i <= values@.len(),
            vs@.len() == i,
            forall|j: int| 0 <= j < i ==> (#[trigger] values@[j])@.len() == N,
            forall|j: int|
                0 <= j < i ==> (#[trigger] vs@[j]).0@ == crate::fixed::decimal_decode_spec(
                    values@[j]@,
                ) && vs@[j].wf(),
        decreases values@.len() - i,
    {
        if values[i].len() != N {
            return Err(crate::CodecError::MalformedRow);
        }
        vs.push(crate::fixed::RawDecimal::<N>::decode(values[i].as_slice()));
        i = i + 1;
    }
    Ok(vs)
}

/// Copies dictionary value bytes into a binary column.
pub fn decode_binary(values: &Vec<Vec<u8>>) -> (r: Vec<Vec<u8>>)
    ensures
        r@.len() == values@.len(),
        forall|i: int| 0 <= i < values@.len() ==> (#[trigger] r@[i])@ == values@[i]@,
{
    let mut vs: Vec<Vec<u8>> = Vec::new();
    let mut i: usize = 0;
    while i < values.len()
        invariant
            0 <= i <= values@.len(),
            vs@.len() == i,
            forall|j: int| 0 <= j < i ==> (#[trigger] vs@[j])@ == values@[j]@,
        decreases values@.len() - i,
    {
        vs.push(crate::fixed::from_slice(values[i].as_slice(), false));
        i = i + 1;
    }
    vs
}

/// Copies dictionary value bytes into a string column; the codec carries
/// UTF-8 as bytes throughout.
pub fn decode_string(values: &Vec<Vec<u8>>) -> (r: Vec<Vec<u8>>)
    ensures
        r@.len() == values@.len(),
        forall|i: int| 0 <= i < values@.len() ==> (#[trigger] r@[i])@ == values@[i]@,
{
    decode_binary(values)
}

fn child_bool(values: &Vec<Vec<u8>>) -> (r: Result<ChildColumn, crate::CodecError>)
    ensures
        r is Ok <==> (forall|i: int|
            0 <= i < values@.len() ==> (#[trigger] values@[i])@.len() == bool::width_spec()),
        r is Err ==> r == Err::<ChildColumn, crate::CodecError>(crate::CodecError::MalformedRow),
        r matches Ok(c) ==> (c matches ChildColumn::Boolean(vs) && fixed_values_match(values@, vs)),
{
    match decode_fixed_values::<bool>(values) {
        Ok(vs) => Ok(ChildColumn::Boolean(vs)),
        Err(e) => Err(e),
    }
}

fn child_i8(values: &Vec<Vec<u8>>) -> (r: Result<ChildColumn, crate::CodecError>)
    ensures
        r is Ok <==> (forall|i: int|
            0 <= i < values@.len() ==> (#[trigger] values@[i])@.len() == i8::width_spec()),
        r is Err ==> r == Err::<ChildColumn, crate::CodecError>(crate::CodecError::MalformedRow),
        r matches Ok(c) ==> (c matches ChildColumn::Int8(vs) && fixed_values_match(values@, vs)),
{
    match decode_fixed_values::<i8>(values) {
        Ok(vs) => Ok(ChildColumn::Int8(vs)),
        Err(e) => Err(e),
    }
}

fn child_i16(values: &Vec<Vec<u8>>) -> (r: Result<ChildColumn, crate::CodecError>)
    ensures
        r is Ok <==> (forall|i: int|
            0 <= i < values@.len() ==> (#[trigger] values@[i])@.len() == i16::width_spec()),
        r is Err ==> r == Err::<ChildColumn, crate::CodecError>(crate::CodecError::MalformedRow),
        r matches Ok(c) ==> (c matches ChildColumn::Int16(vs) && fixed_values_match(values@, vs)),
{
    match decode_fixed_values::<i16>(values) {
        Ok(vs) => Ok(ChildColumn::Int16(vs)),
        Err(e) => Err(e),
    }
}

fn child_i32(values: &Vec<Vec<u8>>) -> (r: Result<ChildColumn, crate::CodecError>)
    ensures
        r is Ok <==> (forall|i: int|
            0 <= i < values@.len() ==> (#[trigger] values@[i])@.len() == i32::width_spec()),
        r is Err ==> r == Err::<ChildColumn, crate::CodecError>(crate::CodecError::MalformedRow),
        r matches Ok(c) ==> (c matches ChildColumn::Int32(vs) && fixed_values_match(values@, vs)),
{
    match decode_fixed_values::<i32>(values) {
        Ok(vs) => Ok(ChildColumn::Int32(vs)),
        Err(e) => Err(e),
    }
}

fn child_i64(values: &Vec<Vec<u8>>) -> (r: Result<ChildColumn, crate::CodecError>)
    ensures
        r is Ok <==> (forall|i: int|
            0 <= i < values@.len() ==> (#[trigger] values@[i])@.len() == i64::width_spec()),
        r is Err ==> r == Err::<ChildColumn, crate::CodecError>(crate::CodecError::MalformedRow),
        r matches Ok(c) ==> (c matches ChildColumn::Int64(vs) && fixed_values_match(values@, vs)),
{
    match decode_fixed_values::<i64>(values) {
        Ok(vs) => Ok(ChildColumn::Int64(vs)),
        Err(e) => Err(e),
    }
}

fn child_i128(values: &Vec<Vec<u8>>) -> (r: Result<ChildColumn, crate::CodecError>)
    ensures
        r is Ok <==> (forall|i: int|
            0 <= i < values@.len() ==> (#[trigger] values@[i])@.len() == i128::width_spec()),
        r is Err ==> r == Err::<ChildColumn, crate::CodecError>(crate::CodecError::MalformedRow),
        r matches Ok(c) ==> (c matches ChildColumn::Int128(vs) && fixed_values_match(values@, vs)),
{
    match decode_fixed_values::<i128>(values) {
        Ok(vs) => Ok(ChildColumn::Int128(vs)),
        Err(e) => Err(e),
    }
}

fn child_u8(values: &Vec<Vec<u8>>) -> (r: Result<ChildColumn, crate::CodecError>)
    ensures
        r is Ok <==> (forall|i: int|
            0 <= i < values@.len() ==> (#[trigger] values@[i])@.len() == u8::width_spec()),
        r is Err ==> r == Err::<ChildColumn, crate::CodecError>(crate::CodecError::MalformedRow),
        r matches Ok(c) ==> (c matches ChildColumn::UInt8(vs) && fixed_values_match(values@, vs)),
{
    match decode_fixed_values::<u8>(values) {
        Ok(vs) => Ok(ChildColumn::UInt8(vs)),
        Err(e) => Err(e),
    }
}

fn child_u16(values: &Vec<Vec<u8>>) -> (r: Result<ChildColumn, crate::CodecError>)
    ensures
        r is Ok <==> (forall|i: int|
            0 <= i < values@.len() ==> (#[trigger] values@[i])@.len() == u16::width_spec()),
        r is Err ==> r == Err::<ChildColumn, crate::CodecError>(crate::CodecError::MalformedRow),
        r matches Ok(c) ==> (c matches ChildColumn::UInt16(vs) && fixed_values_match(values@, vs)),
{
    match decode_fixed_values::<u16>(values) {
        Ok(vs) => Ok(ChildColumn::UInt16(vs)),
        Err(e) => Err(e),
    }
}

fn child_u32(values: &Vec<Vec<u8>>) -> (r: Result<ChildColumn, crate::CodecError>)
    ensures
        r is Ok <==> (forall|i: int|
            0 <= i < values@.len() ==> (#[trigger] values@[i])@.len() == u32::width_spec()),
        r is Err ==> r == Err::<ChildColumn, crate::CodecError>(crate::CodecError::MalformedRow),
        r matches Ok(c) ==> (c matches ChildColumn::UInt32(vs) && fixed_values_match(values@, vs)),
{
    match decode_fixed_values::<u32>(values) {
        Ok(vs) => Ok(ChildColumn::UInt32(vs)),
        Err(e) => Err(e),
    }
}

fn child_u64(values: &Vec<Vec<u8>>) -> (r: Result<ChildColumn, crate::CodecError>)
    ensures
        r is Ok <==> (forall|i: int|
            0 <= i < values@.len() ==> (#[trigger] values@[i])@.len() == u64::width_spec()),
        r is Err ==> r == Err::<ChildColumn, crate::CodecError>(crate::CodecError::MalformedRow),
        r matches Ok(c) ==> (c matches ChildColumn::UInt64(vs) && fixed_values_match(values@, vs)),
{
    match decode_fixed_values::<u64>(values) {
        Ok(vs) => Ok(ChildColumn::UInt64(vs)),
        Err(e) => Err(e),
    }
}

fn child_f16(values: &Vec<Vec<u8>>) -> (r: Result<ChildColumn, crate::CodecError>)
    ensures
        r is Ok <==> (forall|i: int|
            0 <= i < values@.len() ==> (#[trigger] values@[i])@.len() == crate::fixed::Float16Bits::width_spec()),
        r is Err ==> r == Err::<ChildColumn, crate::CodecError>(crate::CodecError::MalformedRow),
        r matches Ok(c) ==> (c matches ChildColumn::Float16(vs) && fixed_values_match(values@, vs)),
{
    match decode_fixed_values::<crate::fixed::Float16Bits>(values) {
        Ok(vs) => Ok(ChildColumn::Float16(vs)),
        Err(e) => Err(e),
    }
}

fn child_f32(values: &Vec<Vec<u8>>) -> (r: Result<ChildColumn, crate::CodecError>)
    ensures
        r is Ok <==> (forall|i: int|
            0 <= i < values@.len() ==> (#[trigger] values@[i])@.len() == crate::fixed::Float32Bits::width_spec()),
        r is Err ==> r == Err::<ChildColumn, crate::CodecError>(crate::CodecError::MalformedRow),
        r matches Ok(c) ==> (c matches ChildColumn::Float32(vs) && fixed_values_match(values@, vs)),
{
    match decode_fixed_values::<crate::fixed::Float32Bits>(values) {
        Ok(vs) => Ok(ChildColumn::Float32(vs)),
        Err(e) => Err(e),
    }
}

fn child_f64(values: &Vec<Vec<u8>>) -> (r: Result<ChildColumn, crate::CodecError>)
    ensures
        r is Ok <==> (forall|i: int|
            0 <= i < values@.len() ==> (#[trigger] values@[i])@.len() == crate::fixed::Float64Bits::width_spec()),
        r is Err ==> r == Err::<ChildColumn, crate::CodecError>(crate::CodecError::MalformedRow),
        r matches Ok(c) ==> (c matches ChildColumn::Float64(vs) && fixed_values_match(values@, vs)),
{
    match decode_fixed_values::<crate::fixed::Float64Bits>(values) {
        Ok(vs) => Ok(ChildColumn::Float64(vs)),
        Err(e) => Err(e),
    }
}

fn child_dec128(values: &Vec<Vec<u8>>) -> (r: Result<ChildColumn, crate::CodecError>)
    ensures
        r is Ok <==> (forall|i: int|
            0 <= i < values@.len() ==> (#[trigger] values@[i])@.len() == 16),
        r is Err ==> r == Err::<ChildColumn, crate::CodecError>(crate::CodecError::MalformedRow),
        r matches Ok(c) ==> (c matches ChildColumn::Decimal128(vs) && decimal_values_match(
            values@,
            vs,
        )),
{
    match decode_decimal_values::<16>(values) {
        Ok(vs) => Ok(ChildColumn::Decimal128(vs)),
        Err(e) => Err(e),
    }
}

fn child_dec256(values: &Vec<Vec<u8>>) -> (r: Result<ChildColumn, crate::CodecError>)
    ensures
        r is Ok <==> (forall|i: int|
            0 <= i < values@.len() ==> (#[trigger] values@[i])@.len() == 32),
        r is Err ==> r == Err::<ChildColumn, crate::CodecError>(crate::CodecError::MalformedRow),
        r matches Ok(c) ==> (c matches ChildColumn::Decimal256(vs) && decimal_values_match(
            values@,
            vs,
        )),
{
    match decode_decimal_values::<32>(values) {
        Ok(vs) => Ok(ChildColumn::Decimal256(vs)),
        Err(e) => Err(e),
    }
}

/// Materializes a dictionary child from the dense value payloads by the
/// value type. Fails with `UnsupportedType` for a type without a codec, and
/// with `MalformedRow` when a payload has the wrong width for the type.
pub fn child_from_values(value_type: &crate::DataType, values: &Vec<Vec<u8>>) -> (r: Result<
    ChildColumn,
    crate::CodecError,
>)
    ensures
        r is Ok <==> (dict_value_supported(*value_type) && dict_payloads_fit(
            *value_type,
            values@,
        )),
        r matches Ok(c) ==> child_matches(*value_type, values@, c),
        !dict_value_supported(*value_type) ==> r == Err::<ChildColumn, crate::CodecError>(
            crate::CodecError::UnsupportedType,
        ),
        r is Err ==> r == Err::<ChildColumn, crate::CodecError>(crate::CodecError::UnsupportedType)
            || r == Err::<ChildColumn, crate::CodecError>(crate::CodecError::MalformedRow),
        r == Err::<ChildColumn, crate::CodecError>(crate::CodecError::UnsupportedType)
            ==> !dict_value_supported(*value_type),
{
    match value_type {
        crate::DataType::Null => Ok(ChildColumn::Null(values.len())),
        crate::DataType::Boolean => child_bool(values),
        crate::DataType::Int8 => child_i8(values),
        crate::DataType::Int16 => child_i16(values),
        crate::DataType::Int32 => child_i32(values),
        crate::DataType::Int64 => child_i64(values),
        crate::DataType::UInt8 => child_u8(values),
        crate::DataType::UInt16 => child_u16(values),
        crate::DataType::UInt32 => child_u32(values),
        crate::DataType::UInt64 => child_u64(values),
        crate::DataType::Float16 => child_f16(values),
        crate::DataType::Float32 => child_f32(values),
        crate::DataType::Float64 => child_f64(values),
        crate::DataType::Timestamp(_) => child_i64(values),
        crate::DataType::Date32 => child_i32(values),
        crate::DataType::Date64 => child_i64(values),
        crate::DataType::Time32(crate::TimeUnit::Second) => child_i32(values),
        crate::DataType::Time32(crate::TimeUnit::Millisecond) => child_i32(values),
        crate::DataType::Time32(_) => Err(crate::CodecError::UnsupportedType),
        crate::DataType::Time64(crate::TimeUnit::Microsecond) => child_i64(values),
        crate::DataType::Time64(crate::TimeUnit::Nanosecond) => child_i64(values),
        crate::DataType::Time64(_) => Err(crate::CodecError::UnsupportedType),
        crate::DataType::Duration(_) => child_i64(values),
        crate::DataType::Interval(crate::IntervalUnit::YearMonth) => child_i32(values),
        crate::DataType::Interval(crate::IntervalUnit::DayTime) => child_i64(values),
        crate::DataType::Interval(crate::IntervalUnit::MonthDayNano) => child_i128(values),
        crate::DataType::Binary => Ok(ChildColumn::Binary(decode_binary(values))),
        crate::DataType::Utf8 => Ok(ChildColumn::Utf8(decode_string(values))),
        crate::DataType::Decimal128(_, _) => child_dec128(values),
        crate::DataType::Decimal256(_, _) => child_dec256(values),
    }
}

} // verus!
