use vstd::prelude::*;

verus! {

/// Strict lexicographic (shortlex-free, true dictionary) order on byte strings:
/// `a` comes before `b` when `a` holds the smaller byte at the first position
/// where the two differ, or when `a` is a proper prefix of `b`. Encoded rows
/// are compared by exactly this order.
pub open spec fn lex_lt(a: Seq<u8>, b: Seq<u8>) -> bool
    decreases a.len(),
{
    if b.len() == 0 {
        false
    } else if a.len() == 0 {
        true
    } else if a[0] != b[0] {
        a[0] < b[0]
    } else {
        lex_lt(a.skip(1), b.skip(1))
    }
}

pub open spec fn lex_le(a: Seq<u8>, b: Seq<u8>) -> bool {
    lex_lt(a, b) || a == b
}

pub proof fn lemma_lex_irrefl(a: Seq<u8>)
    ensures
        !lex_lt(a, a),
    decreases a.len(),
{
    if a.len() > 0 {
        lemma_lex_irrefl(a.skip(1));
    }
}

pub proof fn lemma_lex_total(a: Seq<u8>, b: Seq<u8>)
    ensures
        lex_lt(a, b) || lex_lt(b, a) || a == b,
    decreases a.len(),
{
    if a.len() == 0 && b.len() == 0 {
        assert(a =~= b);
    } else if a.len() > 0 && b.len() > 0 && a[0] == b[0] {
        lemma_lex_total(a.skip(1), b.skip(1));
        if a.skip(1) == b.skip(1) {
            assert(a =~= seq![a[0]] + a.skip(1));
            assert(b =~= seq![b[0]] + b.skip(1));
        }
    }
}

pub proof fn lemma_lex_trans(a: Seq<u8>, b: Seq<u8>, c: Seq<u8>)
    requires
        lex_lt(a, b),
        lex_lt(b, c),
    ensures
        lex_lt(a, c),
    decreases a.len(),
{
    if a.len() > 0 && b.len() > 0 && c.len() > 0 {
        if a[0] == b[0] && b[0] == c[0] {
            lemma_lex_trans(a.skip(1), b.skip(1), c.skip(1));
        }
    }
}

pub proof fn lemma_lex_asym(a: Seq<u8>, b: Seq<u8>)
    requires
        lex_lt(a, b),
    ensures
        !lex_lt(b, a),
        a != b,
{
    lemma_lex_irrefl(a);
    if lex_lt(b, a) {
        lemma_lex_trans(a, b, a);
    }
}

/// A string strictly precedes every proper extension of itself.
pub proof fn lemma_lex_extend(a: Seq<u8>, t: Seq<u8>)
    requires
        t.len() > 0,
    ensures
        lex_lt(a, a + t),
    decreases a.len(),
{
    if a.len() == 0 {
        assert(a + t =~= t);
    } else {
        lemma_lex_extend(a.skip(1), t);
        assert((a + t).skip(1) =~= a.skip(1) + t);
        assert((a + t)[0] == a[0]);
    }
}

/// Prepending a common prefix does not change how two strings compare.
pub proof fn lemma_lex_common_prefix(p: Seq<u8>, a: Seq<u8>, b: Seq<u8>)
    ensures
        lex_lt(p + a, p + b) == lex_lt(a, b),
    decreases p.len(),
{
    if p.len() == 0 {
        assert(p + a =~= a);
        assert(p + b =~= b);
    } else {
        lemma_lex_common_prefix(p.skip(1), a, b);
        assert((p + a).skip(1) =~= p.skip(1) + a);
        assert((p + b).skip(1) =~= p.skip(1) + b);
        assert((p + a)[0] == p[0]);
        assert((p + b)[0] == p[0]);
        assert((p + a).len() > 0);
        assert((p + b).len() > 0);
    }
}

/// Two strings that agree on a common prefix and then diverge compare by the
/// first diverging byte.
pub proof fn lemma_lex_diverge(a: Seq<u8>, b: Seq<u8>, i: int)
    requires
        0 <= i < a.len(),
        i < b.len(),
        forall|j: int| 0 <= j < i ==> a[j] == b[j],
        a[i] < b[i],
    ensures
        lex_lt(a, b),
{
    let p = a.take(i);
    assert(a =~= p + a.skip(i));
    assert(b =~= b.take(i) + b.skip(i));
    assert(p =~= b.take(i));
    lemma_lex_common_prefix(p, a.skip(i), b.skip(i));
    assert(a.skip(i)[0] == a[i]);
    assert(b.skip(i)[0] == b[i]);
}

/// Concatenations compare by their leading segments when those diverge
/// (neither is a prefix of the other), and by their continuations when the
/// leading segments are equal. This is how a row of cells compares cell by
/// cell.
pub proof fn lemma_lex_concat(c: Seq<u8>, d: Seq<u8>, t1: Seq<u8>, t2: Seq<u8>)
    requires
        c == d || (!(c.len() <= d.len() && c == d.take(c.len() as int)) && !(d.len() <= c.len()
            && d == c.take(d.len() as int))),
    ensures
        lex_lt(c + t1, d + t2) == (if c == d {
            lex_lt(t1, t2)
        } else {
            lex_lt(c, d)
        }),
    decreases c.len(),
{
    if c == d {
        lemma_lex_common_prefix(c, t1, t2);
        assert(d + t2 =~= c + t2);
    } else if c.len() == 0 {
        assert(c =~= d.take(c.len() as int));
    } else if d.len() == 0 {
        assert(d =~= c.take(d.len() as int));
    } else if c[0] == d[0] {
        assert(c.skip(1) != d.skip(1)) by {
            if c.skip(1) == d.skip(1) {
                assert(c =~= seq![c[0]] + c.skip(1));
                assert(d =~= seq![d[0]] + d.skip(1));
            }
        }
        assert(!(c.skip(1).len() <= d.skip(1).len() && c.skip(1) == d.skip(1).take(
            c.skip(1).len() as int,
        ))) by {
            if c.skip(1).len() <= d.skip(1).len() && c.skip(1) == d.skip(1).take(
                c.skip(1).len() as int,
            ) {
                assert forall|k: int| 0 <= k < c.len() implies c[k] == d.take(
                    c.len() as int,
                )[k] by {
                    if k > 0 {
                        assert(c[k] == c.skip(1)[k - 1]);
                        assert(c.skip(1)[k - 1] == d.skip(1).take(c.skip(1).len() as int)[k - 1]);
                    }
                }
                assert(c =~= d.take(c.len() as int));
            }
        }
        assert(!(d.skip(1).len() <= c.skip(1).len() && d.skip(1) == c.skip(1).take(
            d.skip(1).len() as int,
        ))) by {
            if d.skip(1).len() <= c.skip(1).len() && d.skip(1) == c.skip(1).take(
                d.skip(1).len() as int,
            ) {
                assert forall|k: int| 0 <= k < d.len() implies d[k] == c.take(
                    d.len() as int,
                )[k] by {
                    if k > 0 {
                        assert(d[k] == d.skip(1)[k - 1]);
                        assert(d.skip(1)[k - 1] == c.skip(1).take(d.skip(1).len() as int)[k - 1]);
                    }
                }
                assert(d =~= c.take(d.len() as int));
            }
        }
        lemma_lex_concat(c.skip(1), d.skip(1), t1, t2);
        assert((c + t1).skip(1) =~= c.skip(1) + t1);
        assert((d + t2).skip(1) =~= d.skip(1) + t2);
        assert((c + t1)[0] == c[0]);
        assert((d + t2)[0] == d[0]);
    } else {
        assert((c + t1)[0] == c[0]);
        assert((d + t2)[0] == d[0]);
    }
}

pub proof fn lemma_lex_singleton(a: u8, b: u8)
    ensures
        lex_lt(seq![a], seq![b]) == (a < b),
{
    assert(!lex_lt(Seq::<u8>::empty(), Seq::<u8>::empty()));
    assert(seq![a].skip(1) =~= Seq::<u8>::empty());
    assert(seq![b].skip(1) =~= Seq::<u8>::empty());
    assert(seq![a].len() == 1 && seq![a][0] == a);
    assert(seq![b].len() == 1 && seq![b][0] == b);
}

/// Decides strict lexicographic order on byte slices.
pub fn lex_less(a: &[u8], b: &[u8]) -> (r: bool)
    ensures
        r == lex_lt(a@, b@),
{
    let mut i: usize = 0;
    let n: usize = if a.len() < b.len() {
        a.len()
    } else {
        b.len()
    };
    while i < n
        invariant
            0 <= i <= n,
            n <= a@.len(),
            n <= b@.len(),
            n == a@.len() || n == b@.len(),
            forall|j: int| 0 <= j < i ==> a@[j] == b@[j],
        decreases n - i,
    {
        let x = a[i];
        let y = b[i];
        if x != y {
            proof {
                if x < y {
                    lemma_lex_diverge(a@, b@, i as int);
                } else {
                    lemma_lex_diverge(b@, a@, i as int);
                    lemma_lex_asym(b@, a@);
                }
            }
            return x < y;
        }
        i = i + 1;
    }
    proof {
        if a@.len() < b@.len() {
            assert(b@ =~= a@ + b@.skip(a@.len() as int));
            lemma_lex_extend(a@, b@.skip(a@.len() as int));
        } else if a@.len() == b@.len() {
            assert(a@ =~= b@);
            lemma_lex_irrefl(a@);
        } else {
            assert(a@ =~= b@ + a@.skip(b@.len() as int));
            lemma_lex_extend(b@, a@.skip(b@.len() as int));
            lemma_lex_asym(b@, a@);
        }
    }
    a.len() < b.len()
}

/// Decides equality of two byte slices.
pub fn bytes_equal(a: &[u8], b: &[u8]) -> (r: bool)
    ensures
        r == (a@ == b@),
{
    if a.len() != b.len() {
        return false;
    }
    let mut i: usize = 0;
    while i < a.len()
        invariant
            0 <= i <= a@.len(),
            a@.len() == b@.len(),
            forall|j: int| 0 <= j < i ==> a@[j] == b@[j],
        decreases a@.len() - i,
    {
        if a[i] != b[i] {
            return false;
        }
        i = i + 1;
    }
    proof {
        assert(a@ =~= b@);
    }
    true
}

} // verus!
