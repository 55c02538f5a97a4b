//! Fixed-width little-endian integers: their byte form as spec functions, and
//! executable writers and readers proved against it.

use vstd::prelude::*;

verus! {

/// `256` to the power `w`: one more than the largest value that `w` bytes hold.
pub open spec fn pow256(w: nat) -> nat
    decreases w,
{
    if w == 0 {
        1
    } else {
        256 * pow256((w - 1) as nat)
    }
}

/// The `w` low-order bytes of `v`, least significant first.
pub open spec fn le_bytes(v: nat, w: nat) -> Seq<u8>
    decreases w,
{
    if w == 0 {
        Seq::empty()
    } else {
        seq![(v % 256) as u8] + le_bytes(v / 256, (w - 1) as nat)
    }
}

/// The number whose little-endian form is `s`.
pub open spec fn le_value(s: Seq<u8>) -> nat
    decreases s.len(),
{
    if s.len() == 0 {
        0
    } else {
        s[0] as nat + 256 * le_value(s.drop_first())
    }
}

/// True when `e` stands in `b` from position `pos` on.
pub open spec fn bytes_at(b: Seq<u8>, pos: int, e: Seq<u8>) -> bool {
    0 <= pos && pos + e.len() <= b.len() && b.subrange(pos, pos + e.len()) == e
}

pub proof fn lemma_pow256_positive(w: nat)
    ensures
        pow256(w) >= 1,
    decreases w,
{
    if w > 0 {
        lemma_pow256_positive((w - 1) as nat);
    }
}

pub proof fn lemma_pow256_values()
    ensures
        pow256(4) == 0x1_0000_0000,
        pow256(8) == 0x1_0000_0000_0000_0000,
{
    reveal_with_fuel(pow256, 9);
}

pub proof fn lemma_le_bytes_len(v: nat, w: nat)
    ensures
        le_bytes(v, w).len() == w,
    decreases w,
{
    if w > 0 {
        lemma_le_bytes_len(v / 256, (w - 1) as nat);
    }
}

/// Reading back the bytes of a value that fits gives the value.
pub proof fn lemma_le_value_of_bytes(v: nat, w: nat)
    requires
        v < pow256(w),
    ensures
        le_value(le_bytes(v, w)) == v,
    decreases w,
{
    if w > 0 {
        let p = pow256((w - 1) as nat);
        assert(v / 256 < p) by (nonlinear_arith)
            requires
                v < 256 * p,
        ;
        lemma_le_value_of_bytes(v / 256, (w - 1) as nat);
        let s = le_bytes(v, w);
        assert(s.drop_first() =~= le_bytes(v / 256, (w - 1) as nat));
    }
}

/// What `s` reads as fits in `s.len()` bytes.
pub proof fn lemma_le_value_bound(s: Seq<u8>)
    ensures
        le_value(s) < pow256(s.len()),
    decreases s.len(),
{
    if s.len() > 0 {
        lemma_le_value_bound(s.drop_first());
        let t = le_value(s.drop_first());
        let p = pow256((s.len() - 1) as nat);
        let h = s[0] as nat;
        assert(h + 256 * t < 256 * p) by (nonlinear_arith)
            requires
                h < 256,
                t < p,
        ;
    }
}

/// Writing out what `s` reads as, in as many bytes, gives `s` again.
pub proof fn lemma_le_bytes_of_value(s: Seq<u8>)
    ensures
        le_bytes(le_value(s), s.len()) == s,
    decreases s.len(),
{
    if s.len() > 0 {
        let t = le_value(s.drop_first());
        let v = le_value(s);
        assert(v % 256 == s[0] as nat && v / 256 == t);
        lemma_le_bytes_of_value(s.drop_first());
        assert(le_bytes(v, s.len()) =~= s);
    }
}

/// Two values that fit in `w` bytes have the same bytes only if they are equal.
pub proof fn lemma_le_bytes_injective(v1: nat, v2: nat, w: nat)
    requires
        v1 < pow256(w),
        v2 < pow256(w),
        le_bytes(v1, w) == le_bytes(v2, w),
    ensures
        v1 == v2,
{
    lemma_le_value_of_bytes(v1, w);
    lemma_le_value_of_bytes(v2, w);
}

/// `e1 + e2` stands at `pos` exactly when `e1` does and `e2` follows it.
pub proof fn lemma_bytes_at_concat(b: Seq<u8>, pos: int, e1: Seq<u8>, e2: Seq<u8>)
    ensures
        bytes_at(b, pos, e1 + e2) <==> (bytes_at(b, pos, e1) && bytes_at(b, pos + e1.len(), e2)),
{
    if bytes_at(b, pos, e1 + e2) {
        let s = b.subrange(pos, pos + (e1 + e2).len());
        assert(s == e1 + e2);
        assert(b.subrange(pos, pos + e1.len()) =~= e1) by {
            assert forall|i: int| 0 <= i < e1.len() implies b.subrange(pos, pos + e1.len())[i]
                == e1[i] by {
                assert(s[i] == (e1 + e2)[i]);
            }
        }
        assert(b.subrange(pos + e1.len(), pos + e1.len() + e2.len()) =~= e2) by {
            assert forall|i: int| 0 <= i < e2.len() implies b.subrange(
                pos + e1.len(),
                pos + e1.len() + e2.len(),
            )[i] == e2[i] by {
                assert(s[e1.len() + i] == (e1 + e2)[e1.len() + i]);
            }
        }
    }
    if bytes_at(b, pos, e1) && bytes_at(b, pos + e1.len(), e2) {
        assert(b.subrange(pos, pos + (e1 + e2).len()) =~= e1 + e2) by {
            assert forall|i: int| 0 <= i < (e1 + e2).len() implies b.subrange(
                pos,
                pos + (e1 + e2).len(),
            )[i] == (e1 + e2)[i] by {
                if i < e1.len() {
                    assert(b.subrange(pos, pos + e1.len())[i] == e1[i]);
                } else {
                    assert(b.subrange(pos + e1.len(), pos + e1.len() + e2.len())[i - e1.len()]
                        == e2[i - e1.len()]);
                }
            }
        }
    }
}

/// Appends the `w` low-order bytes of `v` to `out`, least significant first.
pub fn push_le(out: &mut Vec<u8>, v: u64, w: usize)
    ensures
        final(out)@ == old(out)@ + le_bytes(v as nat, w as nat),
{
    let mut x: u64 = v;
    let mut i: usize = 0;
    while i < w
        invariant
            i <= w,
            out@ + le_bytes(x as nat, (w - i) as nat) == old(out)@ + le_bytes(v as nat, w as nat),
        decreases w - i,
    {
        let ghost before = out@;
        let ghost rest = le_bytes((x / 256) as nat, (w - i - 1) as nat);
        assert(le_bytes(x as nat, (w - i) as nat) == seq![(x % 256) as u8] + rest);
        out.push((x % 256) as u8);
        assert(out@ + rest =~= before + (seq![(x % 256) as u8] + rest));
        x = x / 256;
        i = i + 1;
    }
    assert(le_bytes(x as nat, 0) =~= Seq::<u8>::empty());
    assert(out@ + Seq::<u8>::empty() =~= out@);
}

/// Reads the `w` bytes of `b` from `pos` on as a little-endian number.
pub fn read_le(b: &[u8], pos: usize, w: usize) -> (r: u64)
    requires
        w <= 8,
        pos + w <= b@.len(),
    ensures
        r as nat == le_value(b@.subrange(pos as int, pos + w)),
{
    proof {
        lemma_pow256_values();
    }
    let n = b.len();
    let mut x: u64 = 0;
    let mut i: usize = w;
    while i > 0
        invariant
            i <= w <= 8,
            pos + w <= b@.len(),
            b@.len() == n,
            x as nat == le_value(b@.subrange(pos + i, pos + w)),
            pow256(8) == 0x1_0000_0000_0000_0000,
        decreases i,
    {
        let ghost tail = b@.subrange(pos + i, pos + w);
        i = i - 1;
        proof {
            lemma_le_value_bound(tail);
            lemma_pow256_monotone(tail.len(), 7);
            reveal_with_fuel(pow256, 8);
        }
        let byte = b[pos + i];
        x = x * 256 + byte as u64;
        assert(b@.subrange(pos + i, pos + w).drop_first() =~= tail);
    }
    x
}

pub proof fn lemma_pow256_monotone(a: nat, c: nat)
    requires
        a <= c,
    ensures
        pow256(a) <= pow256(c),
    decreases c,
{
    if a < c {
        lemma_pow256_monotone(a, (c - 1) as nat);
        lemma_pow256_positive((c - 1) as nat);
    }
}

} // verus!
