use vstd::prelude::*;

verus! {

/// The data of a decimal column as the comparator reads it: packed
/// little-endian values of one fixed byte width, an element offset, and an
/// optional validity vector (`None` means every element is present).
pub struct DecimalArrayData {
    pub byte_width: usize,
    pub values: Vec<u8>,
    pub offset: usize,
    pub validity: Option<Vec<bool>>,
}

/// Whether the element at absolute position `idx` is null.
pub open spec fn is_null_at(validity: Option<Vec<bool>>, idx: int) -> bool {
    match validity {
        Option::Some(v) => !v@[idx],
        Option::None => false,
    }
}

impl DecimalArrayData {
    /// The value bytes of the element `pos` places after the array offset.
    pub open spec fn elem_bytes(self, pos: int) -> Seq<u8> {
        self.values@.subrange(
            (self.offset + pos) * self.byte_width,
            (self.offset + pos) * self.byte_width + self.byte_width,
        )
    }

    /// Whether the element `pos` places after the array offset is null.
    pub open spec fn null_at(self, pos: int) -> bool {
        is_null_at(self.validity, self.offset + pos)
    }
}

/// What range equality of two decimal arrays means: element by element, a
/// null on the left passes (the caller has already matched the masks), and
/// present elements must agree on nullity and value bytes.
pub open spec fn decimal_equal_spec(
    lhs: DecimalArrayData,
    rhs: DecimalArrayData,
    lhs_start: int,
    rhs_start: int,
    len: int,
) -> bool {
    forall|i: int|
        0 <= i < len ==> (lhs.null_at(lhs_start + i) || (lhs.null_at(lhs_start + i) == rhs.null_at(
            rhs_start + i,
        ) && #[trigger] lhs.elem_bytes(lhs_start + i) == rhs.elem_bytes(rhs_start + i)))
}

/// Whether any of `len` elements from `start` is null.
pub open spec fn contains_nulls_spec(validity: Option<Vec<bool>>, start: int, len: int) -> bool {
    exists|i: int| start <= i < start + len && is_null_at(validity, i)
}

/// Scans a validity range for a null.
pub fn contains_nulls(validity: &Option<Vec<bool>>, start: usize, len: usize) -> (r: bool)
    requires
        validity matches Option::Some(v) ==> start + len <= v@.len(),
    ensures
        r == contains_nulls_spec(*validity, start as int, len as int),
{
    match validity {
        Option::None => false,
        Option::Some(v) => {
            proof {
                assert(v.len() == v@.len());
            }
            let mut i: usize = 0;
            while i < len
                invariant
                    0 <= i <= len,
                    start + len <= v@.len(),
                    v@.len() <= usize::MAX,
                    *validity == Option::Some(*v),
                    forall|j: int| start <= j < start + i ==> v@[j],
                decreases len - i,
            {
                if !v[start + i] {
                    proof {
                        assert(is_null_at(*validity, start + i as int));
                    }
                    return true;
                }
                i = i + 1;
            }
            false
        },
    }
}

/// Compares `n` bytes of two buffers.
fn bytes_range_equal(a: &Vec<u8>, b: &Vec<u8>, a_off: usize, b_off: usize, n: usize) -> (r: bool)
    requires
        a_off + n <= a@.len(),
        b_off + n <= b@.len(),
    ensures
        r == (a@.subrange(a_off as int, a_off + n) == b@.subrange(b_off as int, b_off + n)),
{
    proof {
        assert(a.len() == a@.len());
        assert(b.len() == b@.len());
    }
    let mut i: usize = 0;
    while i < n
        invariant
            0 <= i <= n,
            a_off + n <= a@.len(),
            b_off + n <= b@.len(),
            a@.len() <= usize::MAX,
            b@.len() <= usize::MAX,
            forall|j: int| 0 <= j < i ==> #[trigger] a@[a_off + j] == b@[b_off + j],
        decreases n - i,
    {
        if a[a_off + i] != b[b_off + i] {
            proof {
                assert(a@.subrange(a_off as int, a_off + n)[i as int] != b@.subrange(
                    b_off as int,
                    b_off + n,
                )[i as int]);
            }
            return false;
        }
        i = i + 1;
    }
    proof {
        assert forall|k: int|
            0 <= k < n implies #[trigger] a@.subrange(a_off as int, a_off + n)[k] == b@.subrange(
            b_off as int,
            b_off + n,
        )[k] by {
            assert(a@[a_off + k] == b@[b_off + k]);
        }
        assert(a@.subrange(a_off as int, a_off + n) =~= b@.subrange(b_off as int, b_off + n));
    }
    true
}

/// Range equality of two decimal arrays of one byte width. The caller has
/// already verified that the two validity masks agree on the compared
/// ranges; a null-free left range is compared bytewise, otherwise element
/// by element with nulls passing.
pub fn decimal_equal(
    lhs: &DecimalArrayData,
    rhs: &DecimalArrayData,
    lhs_start: usize,
    rhs_start: usize,
    len: usize,
) -> (r: bool)
    requires
        lhs.byte_width == rhs.byte_width,
        lhs.byte_width >= 1,
        (lhs.offset + lhs_start + len) * lhs.byte_width <= lhs.values@.len(),
        (rhs.offset + rhs_start + len) * rhs.byte_width <= rhs.values@.len(),
        lhs.validity matches Option::Some(v) ==> lhs.offset + lhs_start + len <= v@.len(),
        rhs.validity matches Option::Some(v) ==> rhs.offset + rhs_start + len <= v@.len(),
        forall|i: int|
            0 <= i < len ==> #[trigger] lhs.null_at(lhs_start + i) == rhs.null_at(rhs_start + i),
    ensures
        r == decimal_equal_spec(*lhs, *rhs, lhs_start as int, rhs_start as int, len as int),
{
    let size = lhs.byte_width;
    proof {
        assert(lhs.values.len() == lhs.values@.len());
        assert(rhs.values.len() == rhs.values@.len());
        assert(lhs.offset + lhs_start + len <= (lhs.offset + lhs_start + len) * lhs.byte_width)
            by (nonlinear_arith)
            requires
                lhs.byte_width >= 1,
                lhs.offset + lhs_start + len >= 0,
        ;
        assert(rhs.offset + rhs_start + len <= (rhs.offset + rhs_start + len) * rhs.byte_width)
            by (nonlinear_arith)
            requires
                rhs.byte_width >= 1,
                rhs.offset + rhs_start + len >= 0,
        ;
    }
    let no_nulls = !contains_nulls(&lhs.validity, lhs.offset + lhs_start, len);
    let mut i: usize = 0;
    while i < len
        invariant
            0 <= i <= len,
            lhs.byte_width == rhs.byte_width,
            size == lhs.byte_width,
            size >= 1,
            lhs.values@.len() <= usize::MAX,
            rhs.values@.len() <= usize::MAX,
            lhs.offset + lhs_start + len <= lhs.values@.len(),
            rhs.offset + rhs_start + len <= rhs.values@.len(),
            (lhs.offset + lhs_start + len) * lhs.byte_width <= lhs.values@.len(),
            (rhs.offset + rhs_start + len) * rhs.byte_width <= rhs.values@.len(),
            lhs.validity matches Option::Some(v) ==> lhs.offset + lhs_start + len <= v@.len(),
            rhs.validity matches Option::Some(v) ==> rhs.offset + rhs_start + len <= v@.len(),
            forall|j: int|
                0 <= j < len ==> #[trigger] lhs.null_at(lhs_start + j) == rhs.null_at(rhs_start
                    + j),
            no_nulls == !contains_nulls_spec(
                lhs.validity,
                lhs.offset + lhs_start as int,
                len as int,
            ),
            forall|j: int|
                0 <= j < i ==> (lhs.null_at(lhs_start + j) || #[trigger] lhs.elem_bytes(
                    lhs_start + j,
                ) == rhs.elem_bytes(rhs_start + j)),
        decreases len - i,
    {
        let lhs_null = if no_nulls {
            proof {
                if lhs.null_at(lhs_start + i as int) {
                    assert(is_null_at(lhs.validity, lhs.offset + lhs_start + i as int));
                    assert(contains_nulls_spec(
                        lhs.validity,
                        lhs.offset + lhs_start as int,
                        len as int,
                    ));
                }
            }
            false
        } else {
            match &lhs.validity {
                Option::Some(v) => !v[lhs.offset + lhs_start + i],
                Option::None => false,
            }
        };
        if !lhs_null {
            proof {
                assert((lhs.offset + lhs_start + i) * size + size <= (lhs.offset + lhs_start
                    + len) * size) by (nonlinear_arith)
                    requires
                        i < len,
                        size >= 0,
                        lhs.offset + lhs_start + i + 1 <= lhs.offset + lhs_start + len,
                ;
                assert((rhs.offset + rhs_start + i) * size + size <= (rhs.offset + rhs_start
                    + len) * size) by (nonlinear_arith)
                    requires
                        i < len,
                        size >= 0,
                        rhs.offset + rhs_start + i + 1 <= rhs.offset + rhs_start + len,
                ;
            }
            let same = bytes_range_equal(
                &lhs.values,
                &rhs.values,
                (lhs.offset + lhs_start + i) * size,
                (rhs.offset + rhs_start + i) * size,
                size,
            );
            if !same {
                proof {
                    assert(lhs.elem_bytes(lhs_start + i as int) != rhs.elem_bytes(
                        rhs_start + i as int,
                    ));
                    assert(!lhs.null_at(lhs_start + i as int));
                }
                return false;
            }
        }
        i = i + 1;
    }
    true
}

} // verus!
