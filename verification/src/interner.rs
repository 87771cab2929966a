use vstd::prelude::*;
use crate::lex::{
    lex_lt, lemma_lex_irrefl, lemma_lex_total, lemma_lex_trans, lemma_lex_asym, lemma_lex_extend,
    lemma_lex_common_prefix, lemma_lex_diverge, lex_less, bytes_equal,
};

verus! {

/// The body of a normalized key: what stands before the `0x00` terminator.
/// No interior byte is zero, so a decoder can find the end of the key by
/// scanning for the terminator; the last byte is at least two, which keeps
/// room below every label for later inserts.
pub open spec fn body_ok(b: Seq<u8>) -> bool {
    &&& b.len() > 0
    &&& (forall|i: int| 0 <= i < b.len() ==> b[i] != 0u8)
    &&& b.last() >= 2
}

/// `a` is a (possibly improper) prefix of `b`.
pub open spec fn is_prefix(a: Seq<u8>, b: Seq<u8>) -> bool {
    a.len() <= b.len() && a == b.take(a.len() as int)
}

/// A string strictly below another that is not an extension of it stays
/// below under any extension of itself.
proof fn lemma_lex_lt_no_prefix_extend(a: Seq<u8>, b: Seq<u8>, t: Seq<u8>)
    requires
        lex_lt(a, b),
        !is_prefix(a, b),
    ensures
        lex_lt(a + t, b),
    decreases a.len(),
{
    if a.len() == 0 {
        assert(a =~= b.take(a.len() as int));
    } else if b.len() == 0 {
    } else {
        if a[0] == b[0] {
            assert(!is_prefix(a.skip(1), b.skip(1))) by {
                if is_prefix(a.skip(1), b.skip(1)) {
                    assert(a.skip(1) =~= b.skip(1).take(a.skip(1).len() as int));
                    assert forall|k: int| 0 <= k < a.len() implies a[k] == b.take(
                        a.len() as int,
                    )[k] by {
                        if k > 0 {
                            assert(a[k] == a.skip(1)[k - 1]);
                            assert(b.skip(1).take(a.skip(1).len() as int)[k - 1] == b[k]);
                        }
                    }
                    assert(a =~= b.take(a.len() as int));
                }
            }
            lemma_lex_lt_no_prefix_extend(a.skip(1), b.skip(1), t);
            assert((a + t).skip(1) =~= a.skip(1) + t);
            assert((a + t)[0] == a[0]);
        } else {
            assert((a + t)[0] == a[0]);
        }
    }
}

/// Checks whether `a` is a prefix of `b`.
fn prefix_check(a: &Vec<u8>, b: &Vec<u8>) -> (r: bool)
    ensures
        r == is_prefix(a@, b@),
{
    if a.len() > b.len() {
        proof {
            assert(!is_prefix(a@, b@));
        }
        return false;
    }
    let mut i: usize = 0;
    while i < a.len()
        invariant
            0 <= i <= a@.len() <= b@.len(),
            forall|j: int| 0 <= j < i ==> a@[j] == b@[j],
        decreases a@.len() - i,
    {
        if a[i] != b[i] {
            proof {
                assert(a@[i as int] != b@.take(a@.len() as int)[i as int]);
            }
            return false;
        }
        i = i + 1;
    }
    proof {
        assert(a@ =~= b@.take(a@.len() as int));
    }
    true
}

/// A valid label strictly below `hi[i..]`, which must itself be a valid
/// body. Recursion walks leading `1` bytes; the last byte being at least two
/// guarantees a floor is always found.
fn below_from(hi: &Vec<u8>, i: usize) -> (r: Vec<u8>)
    requires
        i < hi@.len(),
        body_ok(hi@.skip(i as int)),
    ensures
        body_ok(r@),
        lex_lt(r@, hi@.skip(i as int)),
    decreases hi@.len() - i,
{
    let ghost s = hi@.skip(i as int);
    proof {
        assert(hi.len() == hi@.len());
    }
    let b0 = hi[i];
    proof {
        assert(s[0] == hi@[i as int]);
    }
    if b0 >= 3 {
        let mut r: Vec<u8> = Vec::new();
        r.push(b0 - 1);
        proof {
            lemma_lex_diverge(r@, s, 0);
        }
        r
    } else if b0 == 2 {
        let mut r: Vec<u8> = Vec::new();
        r.push(1);
        r.push(255);
        proof {
            lemma_lex_diverge(r@, s, 0);
        }
        r
    } else {
        proof {
            assert(b0 == 1) by {
                assert(s[0] != 0);
            }
            assert(s.last() >= 2);
            assert(i + 1 < hi@.len()) by {
                if i + 1 == hi@.len() {
                    assert(s.len() == 1);
                    assert(s.last() == s[0]);
                }
            }
            assert(body_ok(hi@.skip(i + 1))) by {
                assert(hi@.skip(i + 1) =~= s.skip(1));
                assert(s.skip(1).last() == s.last());
            }
        }
        let tail = below_from(hi, i + 1);
        let mut r: Vec<u8> = Vec::new();
        r.push(1);
        let mut j: usize = 0;
        while j < tail.len()
            invariant
                0 <= j <= tail@.len(),
                r@.len() == 1 + j,
                r@[0] == 1u8,
                forall|k: int| 0 <= k < j ==> r@[k + 1] == tail@[k],
            decreases tail@.len() - j,
        {
            r.push(tail[j]);
            j = j + 1;
        }
        proof {
            assert(r@ =~= seq![1u8] + tail@);
            assert(s =~= seq![1u8] + s.skip(1));
            assert(hi@.skip(i + 1) =~= s.skip(1));
            lemma_lex_common_prefix(seq![1u8], tail@, s.skip(1));
            assert(r@.last() == tail@.last());
            assert forall|k: int| 0 <= k < r@.len() implies r@[k] != 0u8 by {
                if k >= 1 {
                    assert(r@[k] == tail@[k - 1]);
                }
            }
        }
        r
    }
}

/// A valid label strictly between its neighbors: above `lo` when given,
/// below `hi` when given. `lo` and `hi` must be orderly (`lo < hi`) valid
/// bodies; the result is strictly between them and valid.
fn between(lo: Option<&Vec<u8>>, hi: Option<&Vec<u8>>) -> (r: Vec<u8>)
    requires
        lo matches Option::Some(l) ==> body_ok(l@),
        hi matches Option::Some(h) ==> body_ok(h@),
        (lo is Some && hi is Some) ==> lex_lt(lo->0@, hi->0@),
    ensures
        body_ok(r@),
        lo matches Option::Some(l) ==> lex_lt(l@, r@),
        hi matches Option::Some(h) ==> lex_lt(r@, h@),
{
    match (lo, hi) {
        (Option::None, Option::None) => {
            let mut r: Vec<u8> = Vec::new();
            r.push(128);
            r
        },
        (Option::None, Option::Some(h)) => {
            proof {
                assert(h@.skip(0) =~= h@);
            }
            below_from(h, 0)
        },
        (Option::Some(l), Option::None) => {
            let mut r = crate::fixed::from_slice(l.as_slice(), false);
            r.push(2);
            proof {
                assert(r@ =~= l@ + seq![2u8]);
                lemma_lex_extend(l@, seq![2u8]);
                assert forall|k: int| 0 <= k < r@.len() implies r@[k] != 0u8 by {
                    if k < l@.len() {
                        assert(r@[k] == l@[k]);
                    }
                }
            }
            r
        },
        (Option::Some(l), Option::Some(h)) => {
            if prefix_check(l, h) {
                proof {
                    assert(l@.len() < h@.len()) by {
                        if l@.len() == h@.len() {
                            assert(l@ =~= h@);
                            lemma_lex_irrefl(l@);
                        }
                    }
                    assert(body_ok(h@.skip(l@.len() as int))) by {
                        let s = h@.skip(l@.len() as int);
                        assert(s.last() == h@.last());
                        assert forall|k: int| 0 <= k < s.len() implies s[k] != 0u8 by {
                            assert(s[k] == h@[k + l@.len()]);
                        }
                    }
                }
                let tail = below_from(h, l.len());
                let mut r = crate::fixed::from_slice(l.as_slice(), false);
                let mut j: usize = 0;
                while j < tail.len()
                    invariant
                        0 <= j <= tail@.len(),
                        r@.len() == l@.len() + j,
                        forall|k: int| 0 <= k < l@.len() ==> r@[k] == l@[k],
                        forall|k: int| 0 <= k < j ==> r@[k + l@.len()] == tail@[k],
                    decreases tail@.len() - j,
                {
                    r.push(tail[j]);
                    j = j + 1;
                }
                proof {
                    assert(r@ =~= l@ + tail@);
                    lemma_lex_extend(l@, tail@);
                    assert(h@ =~= l@ + h@.skip(l@.len() as int));
                    lemma_lex_common_prefix(l@, tail@, h@.skip(l@.len() as int));
                    assert(r@.last() == tail@.last());
                    assert forall|k: int| 0 <= k < r@.len() implies r@[k] != 0u8 by {
                        if k < l@.len() {
                            assert(r@[k] == l@[k]);
                        } else {
                            assert(r@[k] == tail@[k - l@.len()]);
                        }
                    }
                }
                r
            } else {
                let mut r = crate::fixed::from_slice(l.as_slice(), false);
                r.push(2);
                proof {
                    assert(r@ =~= l@ + seq![2u8]);
                    lemma_lex_extend(l@, seq![2u8]);
                    lemma_lex_lt_no_prefix_extend(l@, h@, seq![2u8]);
                    assert forall|k: int| 0 <= k < r@.len() implies r@[k] != 0u8 by {
                        if k < l@.len() {
                            assert(r@[k] == l@[k]);
                        }
                    }
                }
                r
            }
        },
    }
}

/// Appending the `0x00` terminator to two zero-free bodies keeps their
/// order: the terminator is below every interior byte.
pub proof fn lemma_key_terminator(b1: Seq<u8>, b2: Seq<u8>)
    requires
        forall|i: int| 0 <= i < b1.len() ==> b1[i] != 0u8,
        forall|i: int| 0 <= i < b2.len() ==> b2[i] != 0u8,
    ensures
        lex_lt(b1 + seq![0u8], b2 + seq![0u8]) == lex_lt(b1, b2),
    decreases b1.len() + b2.len(),
{
    let s1 = b1 + seq![0u8];
    let s2 = b2 + seq![0u8];
    if b1.len() == 0 && b2.len() == 0 {
        assert(s1 =~= seq![0u8]);
        assert(s2 =~= seq![0u8]);
        lemma_lex_irrefl(s1);
    } else if b1.len() == 0 {
        assert(s1[0] == 0u8);
        assert(s2[0] == b2[0]);
        lemma_lex_diverge(s1, s2, 0);
    } else if b2.len() == 0 {
        assert(s2[0] == 0u8);
        assert(s1[0] == b1[0]);
        lemma_lex_diverge(s2, s1, 0);
        lemma_lex_asym(s2, s1);
    } else {
        if b1[0] == b2[0] {
            lemma_key_terminator(b1.skip(1), b2.skip(1));
            assert(s1.skip(1) =~= b1.skip(1) + seq![0u8]);
            assert(s2.skip(1) =~= b2.skip(1) + seq![0u8]);
            assert(s1[0] == b1[0]);
            assert(s2[0] == b2[0]);
        } else {
            assert(s1[0] == b1[0]);
            assert(s2[0] == b2[0]);
        }
    }
}

/// An opaque handle for an interned value, stable for the lifetime of its
/// interner.
#[derive(Clone, Copy, PartialEq, Eq, Structural, Debug)]
pub struct Interned(pub usize);

/// An insert-only map from byte strings to normalized, `0x00`-terminated
/// byte strings whose lexicographic order equals the order of the inputs.
pub struct OrderPreservingInterner {
    /// handle -> the input bytes.
    values: Vec<Vec<u8>>,
    /// handle -> the normalized key, terminator included.
    keys: Vec<Vec<u8>>,
    /// handles in ascending input order.
    sorted: Vec<usize>,
    /// handle -> its position in `sorted`.
    rank: Vec<usize>,
}

impl OrderPreservingInterner {
    /// How many distinct values have been interned.
    pub closed spec fn len_spec(self) -> int {
        self.values@.len() as int
    }

    /// The input bytes of a handle.
    pub closed spec fn val(self, h: int) -> Seq<u8> {
        self.values@[h]@
    }

    /// The normalized key of a handle, terminator included.
    pub closed spec fn key(self, h: int) -> Seq<u8> {
        self.keys@[h]@
    }

    pub closed spec fn sorted_at(self, p: int) -> int {
        self.sorted@[p] as int
    }

    pub closed spec fn rank_of(self, h: int) -> int {
        self.rank@[h] as int
    }

    /// The interner's invariant: ranks and sorted positions are inverse, the
    /// inputs are strictly sorted along `sorted`, the key bodies are strictly
    /// sorted the same way, and every key is a valid body plus terminator.
    pub closed spec fn wf(self) -> bool {
        let n = self.len_spec();
        &&& self.keys@.len() == n
        &&& self.sorted@.len() == n
        &&& self.rank@.len() == n
        &&& (forall|p: int| 0 <= p < n ==> 0 <= #[trigger] self.sorted_at(p) < n)
        &&& (forall|h: int|
            0 <= h < n ==> 0 <= #[trigger] self.rank_of(h) < n && self.sorted_at(self.rank_of(h))
                == h)
        &&& (forall|p: int, q: int|
            0 <= p < q < n ==> lex_lt(
                #[trigger] self.val(self.sorted_at(p)),
                #[trigger] self.val(self.sorted_at(q)),
            ))
        &&& (forall|p: int, q: int|
            0 <= p < q < n ==> lex_lt(
                #[trigger] self.key(self.sorted_at(p)).drop_last(),
                #[trigger] self.key(self.sorted_at(q)).drop_last(),
            ))
        &&& (forall|h: int|
            0 <= h < n ==> body_ok(#[trigger] self.key(h).drop_last()) && self.key(h).last()
                == 0u8 && self.key(h).len() >= 2)
    }

    /// An empty interner.
    pub fn new() -> (r: Self)
        ensures
            r.wf(),
            r.len_spec() == 0,
    {
        OrderPreservingInterner {
            values: Vec::new(),
            keys: Vec::new(),
            sorted: Vec::new(),
            rank: Vec::new(),
        }
    }

    pub fn len(&self) -> (r: usize)
        ensures
            r == self.len_spec(),
    {
        self.values.len()
    }

    /// The original input bytes of a handle.
    pub fn value(&self, h: Interned) -> (r: &Vec<u8>)
        requires
            0 <= h.0 < self.len_spec(),
        ensures
            r@ == self.val(h.0 as int),
    {
        &self.values[h.0]
    }

    /// The normalized key of a handle, terminator included.
    pub fn normalized_key(&self, h: Interned) -> (r: &Vec<u8>)
        requires
            self.wf(),
            0 <= h.0 < self.len_spec(),
        ensures
            r@ == self.key(h.0 as int),
    {
        &self.keys[h.0]
    }

    /// The handle whose normalized key is exactly `normalized` (terminator
    /// included), if any; the reverse mapping used during decode.
    pub fn lookup(&self, normalized: &[u8]) -> (r: Option<Interned>)
        requires
            self.wf(),
        ensures
            r matches Option::Some(h) ==> 0 <= h.0 < self.len_spec() && self.key(h.0 as int)
                == normalized@,
            r is None ==> forall|h: int|
                0 <= h < self.len_spec() ==> #[trigger] self.key(h) != normalized@,
    {
        let n = self.keys.len();
        let mut h: usize = 0;
        while h < n
            invariant
                0 <= h <= n,
                self.wf(),
                n == self.keys@.len(),
                n == self.len_spec(),
                forall|g: int| 0 <= g < h ==> #[trigger] self.key(g) != normalized@,
            decreases n - h,
        {
            if bytes_equal(self.keys[h].as_slice(), normalized) {
                return Option::Some(Interned(h));
            }
            h = h + 1;
        }
        Option::None
    }

    /// Interns one value, returning its handle; a fresh value is assigned a
    /// normalized key strictly between its neighbors' keys.
    fn intern_one(&mut self, v: &Vec<u8>) -> (h: Interned)
        requires
            old(self).wf(),
        ensures
            final(self).wf(),
            final(self).len_spec() >= old(self).len_spec(),
            0 <= h.0 < final(self).len_spec(),
            final(self).val(h.0 as int) == v@,
            forall|g: int|
                0 <= g < old(self).len_spec() ==> final(self).val(g) == old(self).val(g)
                    && final(self).key(g) == old(self).key(g),
    {
        let n = self.sorted.len();
        let mut p: usize = 0;
        while p < n
            invariant_except_break
                0 <= p <= n,
                self.wf(),
                n == self.len_spec(),
                forall|q: int|
                    0 <= q < p ==> lex_lt(#[trigger] self.val(self.sorted_at(q)), v@),
            ensures
                0 <= p <= n,
                self.wf(),
                n == self.len_spec(),
                forall|q: int|
                    0 <= q < p ==> lex_lt(#[trigger] self.val(self.sorted_at(q)), v@),
                p < n ==> !lex_lt(self.val(self.sorted_at(p as int)), v@),
            decreases n - p,
        {
            let g = self.sorted[p];
            proof {
                assert(g == self.sorted_at(p as int));
                assert(0 <= self.sorted_at(p as int) < self.len_spec());
            }
            if !lex_less(self.values[g].as_slice(), v.as_slice()) {
                break ;
            }
            p = p + 1;
        }
        if p < n {
            let g = self.sorted[p];
            proof {
                assert(g == self.sorted_at(p as int));
                assert(0 <= self.sorted_at(p as int) < self.len_spec());
            }
            if bytes_equal(self.values[g].as_slice(), v.as_slice()) {
                proof {
                    assert(self.val(g as int) == v@);
                }
                return Interned(g);
            }
        }
        proof {
            if p < n {
                lemma_lex_total(self.val(self.sorted_at(p as int)), v@);
            }
        }
        // The new value's key must sit strictly between its neighbors'.
        let label: Vec<u8> = if p > 0 && p < n {
            let glo = self.sorted[p - 1];
            let ghi = self.sorted[p];
            proof {
                assert(glo == self.sorted_at(p - 1 as int));
                assert(ghi == self.sorted_at(p as int));
                assert(0 <= self.sorted_at(p - 1 as int) < self.len_spec());
                assert(0 <= self.sorted_at(p as int) < self.len_spec());
                assert(body_ok(self.key(glo as int).drop_last()));
                assert(body_ok(self.key(ghi as int).drop_last()));
                assert(self.key(glo as int).len() >= 2);
                assert(self.key(ghi as int).len() >= 2);
            }
            let lo_body = body_of(&self.keys[glo]);
            let hi_body = body_of(&self.keys[ghi]);
            proof {
                assert(lo_body@ == self.key(glo as int).drop_last());
                assert(hi_body@ == self.key(ghi as int).drop_last());
                assert(lex_lt(lo_body@, hi_body@));
            }
            between(Some(&lo_body), Some(&hi_body))
        } else if p > 0 {
            let glo = self.sorted[p - 1];
            proof {
                assert(glo == self.sorted_at(p - 1 as int));
                assert(0 <= self.sorted_at(p - 1 as int) < self.len_spec());
                assert(body_ok(self.key(glo as int).drop_last()));
                assert(self.key(glo as int).len() >= 2);
            }
            let lo_body = body_of(&self.keys[glo]);
            between(Some(&lo_body), None)
        } else if p < n {
            let ghi = self.sorted[p];
            proof {
                assert(ghi == self.sorted_at(p as int));
                assert(0 <= self.sorted_at(p as int) < self.len_spec());
                assert(body_ok(self.key(ghi as int).drop_last()));
                assert(self.key(ghi as int).len() >= 2);
            }
            let hi_body = body_of(&self.keys[ghi]);
            between(None, Some(&hi_body))
        } else {
            between(None, None)
        };
        let h_new = self.values.len();
        let ghost pre = *self;
        self.values.push(crate::fixed::from_slice(v.as_slice(), false));
        let mut key = label;
        let ghost body = key@;
        key.push(0);
        self.keys.push(key);
        self.sorted.insert(p, h_new);
        let mut t: usize = 0;
        #[verifier::loop_isolation(false)]
        while t < self.rank.len()
            invariant
                0 <= t <= self.rank@.len(),
                self.rank@.len() == pre.rank@.len(),
                pre.wf(),
                0 <= p <= pre.len_spec(),
                forall|g: int|
                    0 <= g < t ==> #[trigger] self.rank@[g] == (if pre.rank_of(g) >= p {
                        pre.rank_of(g) + 1
                    } else {
                        pre.rank_of(g)
                    }),
                forall|g: int| t <= g < self.rank@.len() ==> self.rank@[g] == pre.rank@[g],
                self.values@ == pre.values@.push(self.values@[pre.values@.len() as int]),
                self.keys@ == pre.keys@.push(self.keys@[pre.keys@.len() as int]),
                self.values@[h_new as int]@ == v@,
                self.keys@[h_new as int]@ == body + seq![0u8],
                self.sorted@ == pre.sorted@.insert(p as int, h_new),
                h_new == pre.values@.len(),
            decreases self.rank@.len() - t,
        {
            let rt = self.rank[t];
            if rt >= p {
                proof {
                    assert(pre.rank_of(t as int) < pre.len_spec());
                }
                self.rank.set(t, rt + 1);
            }
            t = t + 1;
        }
        self.rank.push(p);
        proof {
            lemma_intern_insert(pre, *self, v@, body, p as int, h_new as int);
        }
        Interned(h_new)
    }

    /// Interns a batch of optional values, returning one handle per present
    /// input; nulls pass through. Previously interned values and keys are
    /// never changed.
    pub fn intern(&mut self, input: &Vec<Option<Vec<u8>>>) -> (r: Vec<Option<Interned>>)
        requires
            old(self).wf(),
        ensures
            final(self).wf(),
            final(self).len_spec() >= old(self).len_spec(),
            forall|g: int|
                0 <= g < old(self).len_spec() ==> final(self).val(g) == old(self).val(g)
                    && final(self).key(g) == old(self).key(g),
            r@.len() == input@.len(),
            forall|i: int| 0 <= i < input@.len() ==> ((#[trigger] r@[i]) is Some <==> input@[i] is Some),
            forall|i: int|
                0 <= i < input@.len() ==> ((#[trigger] r@[i]) matches Option::Some(h) ==> 0 <= h.0
                    < final(self).len_spec() && final(self).val(h.0 as int) == input@[i]->0@),
    {
        let mut out: Vec<Option<Interned>> = Vec::new();
        let mut i: usize = 0;
        while i < input.len()
            invariant
                0 <= i <= input@.len(),
                self.wf(),
                self.len_spec() >= old(self).len_spec(),
                forall|g: int|
                    0 <= g < old(self).len_spec() ==> self.val(g) == old(self).val(g) && self.key(
                        g,
                    ) == old(self).key(g),
                out@.len() == i,
                forall|j: int| 0 <= j < i ==> ((#[trigger] out@[j]) is Some <==> input@[j] is Some),
                forall|j: int|
                    0 <= j < i ==> ((#[trigger] out@[j]) matches Option::Some(h) ==> 0 <= h.0
                        < self.len_spec() && self.val(h.0 as int) == input@[j]->0@),
            decreases input@.len() - i,
        {
            let ghost mid = *self;
            match &input[i] {
                Option::None => {
                    out.push(Option::None);
                },
                Option::Some(v) => {
                    let h = self.intern_one(v);
                    proof {
                        assert forall|j: int|
                            0 <= j < i implies ((#[trigger] out@[j]) matches Option::Some(
                            g,
                        ) ==> 0 <= g.0 < self.len_spec() && self.val(g.0 as int)
                            == input@[j]->0@) by {
                            if out@[j] is Some {
                                assert(mid.val((out@[j]->0).0 as int) == input@[j]->0@);
                            }
                        }
                    }
                    out.push(Option::Some(h));
                },
            }
            i = i + 1;
        }
        out
    }
}

/// The body of a stored key: everything before the terminator.
fn body_of(key: &Vec<u8>) -> (r: Vec<u8>)
    requires
        key@.len() >= 1,
    ensures
        r@ == key@.drop_last(),
{
    proof {
        assert(key.len() == key@.len());
    }
    let r = crate::fixed::from_slice(
        vstd::slice::slice_subrange(key.as_slice(), 0, key.len() - 1),
        false,
    );
    proof {
        assert(r@ =~= key@.drop_last());
    }
    r
}

/// Inserting a fresh value at its sorted position, with a key body strictly
/// between its neighbors' bodies, preserves the interner invariant.
#[verifier::rlimit(80)]
#[verifier::spinoff_prover]
proof fn lemma_intern_insert(
    pre: OrderPreservingInterner,
    post: OrderPreservingInterner,
    v: Seq<u8>,
    body: Seq<u8>,
    p: int,
    h_new: int,
)
    requires
        pre.wf(),
        0 <= p <= pre.len_spec(),
        h_new == pre.len_spec(),
        h_new <= usize::MAX,
        post.values@ == pre.values@.push(post.values@[h_new]),
        post.val(h_new) == v,
        post.keys@ == pre.keys@.push(post.keys@[h_new]),
        post.key(h_new) == body + seq![0u8],
        body_ok(body),
        post.sorted@ == pre.sorted@.insert(p, h_new as usize),
        post.rank@.len() == pre.rank@.len() + 1,
        post.rank@[h_new] == p,
        forall|g: int|
            0 <= g < h_new ==> #[trigger] post.rank@[g] == (if pre.rank_of(g) >= p {
                pre.rank_of(g) + 1
            } else {
                pre.rank_of(g)
            }),
        forall|q: int| 0 <= q < p ==> lex_lt(#[trigger] pre.val(pre.sorted_at(q)), v),
        p < pre.len_spec() ==> lex_lt(v, pre.val(pre.sorted_at(p))),
        p > 0 ==> lex_lt(pre.key(pre.sorted_at(p - 1)).drop_last(), body),
        p < pre.len_spec() ==> lex_lt(body, pre.key(pre.sorted_at(p)).drop_last()),
    ensures
        post.wf(),
        forall|g: int|
            0 <= g < pre.len_spec() ==> post.val(g) == pre.val(g) && post.key(g) == pre.key(g),
{
    let n = pre.len_spec();
    assert(post.values@.len() == n + 1);
    assert(post.keys@.len() == n + 1);
    assert(post.sorted@.len() == n + 1);
    assert(post.rank@.len() == n + 1);
    let ghost sa = pre.sorted@.subrange(0, p).push(h_new as usize);
    let ghost sb = pre.sorted@.subrange(p, pre.sorted@.len() as int);
    assert(post.sorted@ =~= sa + sb);
    assert forall|q: int| 0 <= q < n + 1 implies #[trigger] post.sorted_at(q) == (if q < p {
        pre.sorted_at(q)
    } else if q == p {
        h_new
    } else {
        pre.sorted_at(q - 1)
    }) by {
        if q < p {
            assert((sa + sb)[q] == sa[q]);
            assert(sa[q] == pre.sorted@.subrange(0, p)[q]);
            assert(pre.sorted@.subrange(0, p)[q] == pre.sorted@[q]);
        } else if q == p {
            assert((sa + sb)[q] == sa[p]);
        } else {
            assert((sa + sb)[q] == sb[q - (p + 1)]);
            assert(sb[q - (p + 1)] == pre.sorted@[q - 1]);
        }
    }
    assert forall|g: int| 0 <= g < n implies post.val(g) == pre.val(g) && post.key(g) == pre.key(
        g,
    ) by {
        assert(post.values@[g] == pre.values@[g]);
        assert(post.keys@[g] == pre.keys@[g]);
    }
    assert(post.key(h_new).drop_last() =~= body);
    assert(post.key(h_new).last() == 0u8);
    // sorted positions hold valid handles
    assert forall|q: int| 0 <= q < n + 1 implies 0 <= #[trigger] post.sorted_at(q) < n + 1 by {}
    // ranks are the inverse of sorted
    assert forall|g: int|
        0 <= g < n + 1 implies 0 <= #[trigger] post.rank_of(g) < n + 1 && post.sorted_at(
        post.rank_of(g),
    ) == g by {
        if g < n {
            assert(pre.sorted_at(pre.rank_of(g)) == g);
        }
    }
    // values strictly sorted
    assert forall|q1: int, q2: int| 0 <= q1 < q2 < n + 1 implies lex_lt(
        #[trigger] post.val(post.sorted_at(q1)),
        #[trigger] post.val(post.sorted_at(q2)),
    ) by {
        if q2 < p {
            assert(lex_lt(pre.val(pre.sorted_at(q1)), pre.val(pre.sorted_at(q2))));
            assert(post.val(post.sorted_at(q1)) == pre.val(pre.sorted_at(q1)));
            assert(post.val(post.sorted_at(q2)) == pre.val(pre.sorted_at(q2)));
        } else if q1 < p && q2 == p {
            assert(lex_lt(pre.val(pre.sorted_at(q1)), v));
            assert(post.val(post.sorted_at(q2)) == v);
        } else if q1 < p && q2 > p {
            assert(q1 < q2 - 1 || q1 == q2 - 1);
            assert(lex_lt(pre.val(pre.sorted_at(q1)), pre.val(pre.sorted_at(q2 - 1))));
            assert(post.val(post.sorted_at(q2)) == pre.val(pre.sorted_at(q2 - 1)));
        } else if q1 == p {
            assert(lex_lt(v, pre.val(pre.sorted_at(p))));
            if q2 - 1 > p {
                assert(lex_lt(pre.val(pre.sorted_at(p)), pre.val(pre.sorted_at(q2 - 1))));
                lemma_lex_trans(v, pre.val(pre.sorted_at(p)), pre.val(pre.sorted_at(q2 - 1)));
            }
            assert(post.val(post.sorted_at(q1)) == v);
            assert(post.val(post.sorted_at(q2)) == pre.val(pre.sorted_at(q2 - 1)));
        } else {
            assert(lex_lt(pre.val(pre.sorted_at(q1 - 1)), pre.val(pre.sorted_at(q2 - 1))));
            assert(post.val(post.sorted_at(q1)) == pre.val(pre.sorted_at(q1 - 1)));
            assert(post.val(post.sorted_at(q2)) == pre.val(pre.sorted_at(q2 - 1)));
        }
    }
    // key bodies strictly sorted
    assert(post.key(h_new).drop_last() == body);
    assert forall|q1: int, q2: int| 0 <= q1 < q2 < n + 1 implies lex_lt(
        #[trigger] post.key(post.sorted_at(q1)).drop_last(),
        #[trigger] post.key(post.sorted_at(q2)).drop_last(),
    ) by {
        if q2 < p {
            assert(lex_lt(
                pre.key(pre.sorted_at(q1)).drop_last(),
                pre.key(pre.sorted_at(q2)).drop_last(),
            ));
            assert(post.key(post.sorted_at(q1)) == pre.key(pre.sorted_at(q1)));
            assert(post.key(post.sorted_at(q2)) == pre.key(pre.sorted_at(q2)));
        } else if q1 < p && q2 == p {
            assert(post.key(post.sorted_at(q2)).drop_last() == body);
            assert(post.key(post.sorted_at(q1)) == pre.key(pre.sorted_at(q1)));
            if q1 < p - 1 {
                assert(lex_lt(
                    pre.key(pre.sorted_at(q1)).drop_last(),
                    pre.key(pre.sorted_at(p - 1)).drop_last(),
                ));
                lemma_lex_trans(
                    pre.key(pre.sorted_at(q1)).drop_last(),
                    pre.key(pre.sorted_at(p - 1)).drop_last(),
                    body,
                );
            }
        } else if q1 < p && q2 > p {
            assert(q1 < q2 - 1 || q1 == q2 - 1);
            assert(lex_lt(
                pre.key(pre.sorted_at(q1)).drop_last(),
                pre.key(pre.sorted_at(q2 - 1)).drop_last(),
            ));
            assert(post.key(post.sorted_at(q1)) == pre.key(pre.sorted_at(q1)));
            assert(post.key(post.sorted_at(q2)) == pre.key(pre.sorted_at(q2 - 1)));
        } else if q1 == p {
            assert(post.key(post.sorted_at(q1)).drop_last() == body);
            assert(post.key(post.sorted_at(q2)) == pre.key(pre.sorted_at(q2 - 1)));
            assert(lex_lt(body, pre.key(pre.sorted_at(p)).drop_last()));
            if q2 - 1 > p {
                assert(lex_lt(
                    pre.key(pre.sorted_at(p)).drop_last(),
                    pre.key(pre.sorted_at(q2 - 1)).drop_last(),
                ));
                lemma_lex_trans(
                    body,
                    pre.key(pre.sorted_at(p)).drop_last(),
                    pre.key(pre.sorted_at(q2 - 1)).drop_last(),
                );
            }
        } else {
            assert(lex_lt(
                pre.key(pre.sorted_at(q1 - 1)).drop_last(),
                pre.key(pre.sorted_at(q2 - 1)).drop_last(),
            ));
            assert(post.key(post.sorted_at(q1)) == pre.key(pre.sorted_at(q1 - 1)));
            assert(post.key(post.sorted_at(q2)) == pre.key(pre.sorted_at(q2 - 1)));
        }
    }
    // key shape
    assert forall|g: int|
        0 <= g < n + 1 implies body_ok(#[trigger] post.key(g).drop_last()) && post.key(g).last()
            == 0u8 && post.key(g).len() >= 2 by {
        if g < n {
            assert(post.key(g) == pre.key(g));
        }
    }
    assert(post.len_spec() == n + 1);
    assert forall|g: int|
        0 <= g < post.len_spec() implies body_ok(#[trigger] post.key(g).drop_last()) && post.key(
        g,
    ).last() == 0u8 && post.key(g).len() >= 2 by {
        assert(0 <= g < n + 1);
        if g < n {
            assert(post.key(g) == pre.key(g));
        } else {
            assert(post.key(g).drop_last() =~= body);
        }
    }
}

/// The stored shape of every key of a well-formed interner: a valid body
/// and the terminator.
pub proof fn lemma_key_parts(it: OrderPreservingInterner, h: int)
    requires
        it.wf(),
        0 <= h < it.len_spec(),
    ensures
        it.key(h).len() >= 2,
        body_ok(it.key(h).drop_last()),
        it.key(h).last() == 0u8,
{
    let b = it.key(h).drop_last();
    assert(body_ok(b) && it.key(h).last() == 0u8 && it.key(h).len() >= 2);
}

/// Two different handles of a well-formed interner always hold different
/// values.
pub proof fn lemma_interner_distinct(it: OrderPreservingInterner, h1: int, h2: int)
    requires
        it.wf(),
        0 <= h1 < it.len_spec(),
        0 <= h2 < it.len_spec(),
        h1 != h2,
    ensures
        it.val(h1) != it.val(h2),
        it.key(h1) != it.key(h2),
{
    let p1 = it.rank_of(h1);
    let p2 = it.rank_of(h2);
    assert(it.sorted_at(p1) == h1);
    assert(it.sorted_at(p2) == h2);
    if p1 < p2 {
        assert(lex_lt(it.val(h1), it.val(h2)));
        lemma_lex_asym(it.val(h1), it.val(h2));
        assert(lex_lt(it.key(h1).drop_last(), it.key(h2).drop_last()));
        lemma_lex_asym(it.key(h1).drop_last(), it.key(h2).drop_last());
    } else {
        assert(lex_lt(it.val(h2), it.val(h1)));
        lemma_lex_asym(it.val(h2), it.val(h1));
        assert(lex_lt(it.key(h2).drop_last(), it.key(h1).drop_last()));
        lemma_lex_asym(it.key(h2).drop_last(), it.key(h1).drop_last());
    }
}

/// Interner monotonicity: for any two handles of a well-formed interner, the
/// inputs compare exactly as the normalized keys compare, terminators
/// included.
pub proof fn lemma_interner_monotone(it: OrderPreservingInterner, h1: int, h2: int)
    requires
        it.wf(),
        0 <= h1 < it.len_spec(),
        0 <= h2 < it.len_spec(),
    ensures
        lex_lt(it.val(h1), it.val(h2)) <==> lex_lt(it.key(h1), it.key(h2)),
{
    let p1 = it.rank_of(h1);
    let p2 = it.rank_of(h2);
    assert(it.sorted_at(p1) == h1);
    assert(it.sorted_at(p2) == h2);
    let b1 = it.key(h1).drop_last();
    let b2 = it.key(h2).drop_last();
    assert(it.key(h1) =~= b1 + seq![0u8]);
    assert(it.key(h2) =~= b2 + seq![0u8]);
    lemma_key_terminator(b1, b2);
    if p1 < p2 {
        assert(lex_lt(it.val(h1), it.val(h2)));
        assert(lex_lt(b1, b2));
    } else if p1 == p2 {
        lemma_lex_irrefl(it.val(h1));
        lemma_lex_irrefl(it.key(h1));
    } else {
        assert(lex_lt(it.val(h2), it.val(h1)));
        assert(lex_lt(b2, b1));
        lemma_lex_asym(it.val(h2), it.val(h1));
        lemma_lex_asym(b2, b1);
    }
}

} // verus!
