use vstd::prelude::*;
use crate::lex::{lex_lt, lemma_lex_irrefl};

verus! {

/// `256^w`: the number of byte strings of length `w`, and the modulus of a
/// `w`-byte big-endian payload.
pub open spec fn pow256(w: nat) -> nat
    decreases w,
{
    if w == 0 {
        1
    } else {
        256 * pow256((w - 1) as nat)
    }
}

pub proof fn lemma_pow256_pos(w: nat)
    ensures
        pow256(w) >= 1,
    decreases w,
{
    if w > 0 {
        lemma_pow256_pos((w - 1) as nat);
    }
}

/// The unsigned value a byte string denotes when read big-endian.
pub open spec fn be_nat(s: Seq<u8>) -> nat
    decreases s.len(),
{
    if s.len() == 0 {
        0
    } else {
        (be_nat(s.drop_last()) * 256 + s.last()) as nat
    }
}

/// The `w` low-order bytes of `x`, most significant first.
pub open spec fn be_bytes(x: nat, w: nat) -> Seq<u8>
    decreases w,
{
    if w == 0 {
        Seq::empty()
    } else {
        be_bytes(x / 256, (w - 1) as nat).push((x % 256) as u8)
    }
}

pub proof fn lemma_be_bytes_len(x: nat, w: nat)
    ensures
        be_bytes(x, w).len() == w,
    decreases w,
{
    if w > 0 {
        lemma_be_bytes_len(x / 256, (w - 1) as nat);
    }
}

pub proof fn lemma_be_nat_bound(s: Seq<u8>)
    ensures
        be_nat(s) < pow256(s.len()),
    decreases s.len(),
{
    if s.len() == 0 {
    } else {
        lemma_be_nat_bound(s.drop_last());
        assert(be_nat(s.drop_last()) * 256 <= (pow256((s.len() - 1) as nat) - 1) * 256)
            by (nonlinear_arith)
            requires
                be_nat(s.drop_last()) <= pow256((s.len() - 1) as nat) - 1,
        ;
        assert(pow256(s.len()) == 256 * pow256((s.len() - 1) as nat));
    }
}

/// Reading back the bytes of `x` yields `x` whenever `x` fits in `w` bytes.
pub proof fn lemma_be_nat_of_bytes(x: nat, w: nat)
    requires
        x < pow256(w),
    ensures
        be_nat(be_bytes(x, w)) == x,
    decreases w,
{
    if w == 0 {
    } else {
        let q = x / 256;
        let r = x % 256;
        vstd::arithmetic::div_mod::lemma_fundamental_div_mod(x as int, 256);
        assert(q < pow256((w - 1) as nat)) by (nonlinear_arith)
            requires
                x < 256 * pow256((w - 1) as nat),
                q == x / 256,
        ;
        lemma_be_nat_of_bytes(q, (w - 1) as nat);
        lemma_be_bytes_len(q, (w - 1) as nat);
        assert(be_bytes(x, w).drop_last() =~= be_bytes(q, (w - 1) as nat));
        assert(be_bytes(x, w).last() == r as u8);
    }
}

/// Writing back the value of a byte string yields that byte string.
pub proof fn lemma_be_bytes_of_nat(s: Seq<u8>)
    ensures
        be_bytes(be_nat(s), s.len()) == s,
    decreases s.len(),
{
    if s.len() == 0 {
        assert(be_bytes(be_nat(s), s.len()) =~= s);
    } else {
        let v = be_nat(s);
        let q = be_nat(s.drop_last());
        vstd::arithmetic::div_mod::lemma_fundamental_div_mod_converse(
            v as int,
            256,
            q as int,
            s.last() as int,
        );
        lemma_be_bytes_of_nat(s.drop_last());
        assert(be_bytes(v, s.len()) =~= s);
    }
}

/// Lexicographic comparison of two equal-length strings extended by one byte
/// each: the longer strings compare by the old strings first, then by the new
/// last bytes.
proof fn lemma_lex_push(u: Seq<u8>, v: Seq<u8>, a: u8, b: u8)
    requires
        u.len() == v.len(),
    ensures
        lex_lt(u.push(a), v.push(b)) == (lex_lt(u, v) || (u == v && a < b)),
    decreases u.len(),
{
    if u.len() == 0 {
        assert(u.push(a) =~= seq![a]);
        assert(v.push(b) =~= seq![b]);
        if u == v {
        } else {
            assert(u =~= v);
        }
        assert(seq![a].skip(1) =~= Seq::<u8>::empty());
        assert(seq![b].skip(1) =~= Seq::<u8>::empty());
        assert(!lex_lt(Seq::<u8>::empty(), Seq::<u8>::empty()));
        assert(seq![a].len() == 1 && seq![a][0] == a);
        assert(seq![b].len() == 1 && seq![b][0] == b);
        assert(lex_lt(seq![a], seq![b]) == (a < b));
    } else {
        lemma_lex_push(u.skip(1), v.skip(1), a, b);
        assert(u.push(a).skip(1) =~= u.skip(1).push(a));
        assert(v.push(b).skip(1) =~= v.skip(1).push(b));
        assert(u.push(a)[0] == u[0]);
        assert(v.push(b)[0] == v[0]);
        if u[0] == v[0] {
            if u.skip(1) == v.skip(1) {
                assert(u =~= seq![u[0]] + u.skip(1));
                assert(v =~= seq![v[0]] + v.skip(1));
            }
            if u == v {
                assert(u.skip(1) =~= v.skip(1));
            }
        }
    }
}

/// Big-endian payloads of one width compare lexicographically exactly as their
/// values compare numerically.
pub proof fn lemma_be_bytes_monotone(x: nat, y: nat, w: nat)
    requires
        x < pow256(w),
        y < pow256(w),
    ensures
        lex_lt(be_bytes(x, w), be_bytes(y, w)) == (x < y),
    decreases w,
{
    if w == 0 {
        lemma_lex_irrefl(Seq::<u8>::empty());
    } else {
        let p = pow256((w - 1) as nat);
        let qx = x / 256;
        let qy = y / 256;
        vstd::arithmetic::div_mod::lemma_fundamental_div_mod(x as int, 256);
        vstd::arithmetic::div_mod::lemma_fundamental_div_mod(y as int, 256);
        assert(qx < p && qy < p) by (nonlinear_arith)
            requires
                x < 256 * p,
                y < 256 * p,
                qx == x / 256,
                qy == y / 256,
        ;
        lemma_be_bytes_monotone(qx, qy, (w - 1) as nat);
        lemma_be_bytes_len(qx, (w - 1) as nat);
        lemma_be_bytes_len(qy, (w - 1) as nat);
        lemma_lex_push(
            be_bytes(qx, (w - 1) as nat),
            be_bytes(qy, (w - 1) as nat),
            (x % 256) as u8,
            (y % 256) as u8,
        );
        if qx == qy {
            assert(be_bytes(qx, (w - 1) as nat) == be_bytes(qy, (w - 1) as nat));
        }
        if be_bytes(qx, (w - 1) as nat) == be_bytes(qy, (w - 1) as nat) {
            lemma_be_nat_of_bytes(qx, (w - 1) as nat);
            lemma_be_nat_of_bytes(qy, (w - 1) as nat);
        }
    }
}

/// Equal-length byte strings compare lexicographically as their big-endian
/// values compare numerically.
pub proof fn lemma_lex_is_be_nat(a: Seq<u8>, b: Seq<u8>)
    requires
        a.len() == b.len(),
    ensures
        lex_lt(a, b) == (be_nat(a) < be_nat(b)),
{
    lemma_be_nat_bound(a);
    lemma_be_nat_bound(b);
    lemma_be_bytes_of_nat(a);
    lemma_be_bytes_of_nat(b);
    lemma_be_bytes_monotone(be_nat(a), be_nat(b), a.len());
}

/// Writes the `w` low-order bytes of `x`, most significant first.
pub fn be_encode(x: u128, w: usize) -> (r: Vec<u8>)
    ensures
        r@ == be_bytes(x as nat, w as nat),
        r@.len() == w,
    decreases w,
{
    proof {
        lemma_be_bytes_len(x as nat, w as nat);
    }
    if w == 0 {
        Vec::new()
    } else {
        let mut r = be_encode(x / 256, w - 1);
        r.push((x % 256) as u8);
        r
    }
}

/// Reads a byte string of at most 16 bytes as a big-endian unsigned value.
pub fn be_decode(s: &[u8]) -> (r: u128)
    requires
        s@.len() <= 16,
    ensures
        r as nat == be_nat(s@),
{
    let mut acc: u128 = 0;
    let mut i: usize = 0;
    proof {
        assert(s@.take(0) =~= Seq::<u8>::empty());
    }
    while i < s.len()
        invariant
            0 <= i <= s@.len() <= 16,
            acc as nat == be_nat(s@.take(i as int)),
            acc < pow256(i as nat),
        decreases s@.len() - i,
    {
        proof {
            assert(s@.take(i + 1).drop_last() =~= s@.take(i as int));
            assert(s@.take(i + 1).last() == s@[i as int]);
            lemma_pow256_monotone((i + 1) as nat, 16);
            lemma_pow256_val();
            assert(pow256((i + 1) as nat) == 256 * pow256(i as nat));
        }
        acc = acc * 256 + (s[i] as u128);
        i = i + 1;
    }
    proof {
        assert(s@.take(s@.len() as int) =~= s@);
    }
    acc
}

pub proof fn lemma_pow256_monotone(a: nat, b: nat)
    requires
        a <= b,
    ensures
        pow256(a) <= pow256(b),
    decreases b - a,
{
    if a < b {
        lemma_pow256_monotone(a, (b - 1) as nat);
        lemma_pow256_pos((b - 1) as nat);
    }
}

pub proof fn lemma_pow256_val()
    ensures
        pow256(1) == 0x100,
        pow256(2) == 0x10000,
        pow256(4) == 0x100000000,
        pow256(8) == 0x10000000000000000,
        pow256(16) == 0x100000000000000000000000000000000,
{
    reveal_with_fuel(pow256, 17);
}

/// `be_nat` read off the front: the first byte carries the highest weight.
pub proof fn lemma_be_nat_front(s: Seq<u8>)
    requires
        s.len() > 0,
    ensures
        be_nat(s) == s[0] * pow256((s.len() - 1) as nat) + be_nat(s.skip(1)),
    decreases s.len(),
{
    if s.len() == 1 {
        assert(s.drop_last() =~= Seq::<u8>::empty());
        assert(s.skip(1) =~= Seq::<u8>::empty());
        assert(be_nat(Seq::<u8>::empty()) == 0);
        assert(pow256(0) == 1);
        assert(s.last() == s[0]);
        assert(be_nat(s) == be_nat(s.drop_last()) * 256 + s.last());
    } else {
        let t = s.drop_last();
        lemma_be_nat_front(t);
        assert(s.skip(1).drop_last() =~= t.skip(1));
        assert(s.skip(1).last() == s.last());
        assert(t[0] == s[0]);
        let p = pow256((s.len() - 2) as nat);
        assert(be_nat(s) == (s[0] * p + be_nat(t.skip(1))) * 256 + s.last());
        assert((s[0] * p + be_nat(t.skip(1))) * 256 == s[0] * (256 * p) + be_nat(t.skip(1))
            * 256) by (nonlinear_arith);
        assert(pow256((s.len() - 1) as nat) == 256 * p);
        assert(be_nat(s.skip(1)) == be_nat(t.skip(1)) * 256 + s.last());
    }
}


} // verus!
