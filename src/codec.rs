//! The binary form of a pose database.
//!
//! Integers are fixed-width little-endian; counts and byte lengths are eight
//! bytes wide; text is its UTF-8 bytes after their count; an optional value is
//! a tag byte (0 absent, 1 present) followed by the value. The file holds the
//! pose list, then the joint lists with their pose ids, in that order.

use vstd::prelude::*;
use vstd::utf8::*;
use crate::bytes::{
    bytes_at, le_bytes, le_value, lemma_bytes_at_concat, lemma_le_bytes_injective,
    lemma_le_bytes_len, lemma_le_bytes_of_value, lemma_le_value_bound, lemma_pow256_values, pow256,
    push_le, read_le,
};
use crate::model::{
    entry_view, keys_unique, opt_string_view, Asana, AsanaData, AsanaDataView, AsanaView, Joint, PoseEntry,
    PoseEntryView,
};

verus! {

/// The 32-bit two's-complement pattern of `v`.
pub open spec fn i32_bits(v: i32) -> nat {
    if v >= 0 {
        v as nat
    } else {
        (v + 0x1_0000_0000) as nat
    }
}

pub open spec fn enc_i32(v: i32) -> Seq<u8> {
    le_bytes(i32_bits(v), 4)
}

pub open spec fn enc_u32(v: u32) -> Seq<u8> {
    le_bytes(v as nat, 4)
}

/// A count or a byte length.
pub open spec fn enc_len(n: nat) -> Seq<u8> {
    le_bytes(n, 8)
}

pub open spec fn enc_str(s: Seq<char>) -> Seq<u8> {
    enc_len(encode_utf8(s).len()) + encode_utf8(s)
}

pub open spec fn enc_opt_str(o: Option<Seq<char>>) -> Seq<u8> {
    match o {
        None => seq![0u8],
        Some(s) => seq![1u8] + enc_str(s),
    }
}

pub open spec fn enc_asana(a: AsanaView) -> Seq<u8> {
    enc_i32(a.asana_id) + (enc_i32(a.pose_id) + (enc_str(a.sanskrit) + (enc_str(a.english)
        + enc_opt_str(a.notes))))
}

pub open spec fn enc_joint(j: Joint) -> Seq<u8> {
    enc_i32(j.joint_id) + (enc_i32(j.pose_id) + (enc_u32(j.up_x) + (enc_u32(j.up_y) + (enc_u32(
        j.up_z,
    ) + (enc_u32(j.forward_x) + (enc_u32(j.forward_y) + (enc_u32(j.forward_z) + (enc_u32(
        j.origin_x,
    ) + (enc_u32(j.origin_y) + enc_u32(j.origin_z))))))))))
}

/// The items of `s`, each encoded by `f`, one after another.
pub open spec fn enc_items<T>(s: Seq<T>, f: spec_fn(T) -> Seq<u8>) -> Seq<u8>
    decreases s.len(),
{
    if s.len() == 0 {
        Seq::empty()
    } else {
        enc_items(s.drop_last(), f) + f(s.last())
    }
}

/// The count of `s`, then its items.
pub open spec fn enc_list<T>(s: Seq<T>, f: spec_fn(T) -> Seq<u8>) -> Seq<u8> {
    enc_len(s.len()) + enc_items(s, f)
}

pub open spec fn enc_entry(e: PoseEntryView) -> Seq<u8> {
    enc_i32(e.0) + enc_list(e.1, joint_enc())
}

/// The bytes of a whole database.
pub open spec fn encode_db(d: AsanaDataView) -> Seq<u8> {
    enc_list(d.asanas, asana_enc()) + enc_list(d.poses, entry_enc())
}

/// Text whose byte length fits in a count.
pub open spec fn str_fits(s: Seq<char>) -> bool {
    encode_utf8(s).len() < pow256(8)
}

pub open spec fn asana_fits(a: AsanaView) -> bool {
    &&& str_fits(a.sanskrit)
    &&& str_fits(a.english)
    &&& (a.notes is Some ==> str_fits(a.notes->0))
}

pub open spec fn joint_fits(j: Joint) -> bool {
    true
}

/// A list whose count, and each of whose items, can be written.
pub open spec fn all_fit<T>(s: Seq<T>, fits: spec_fn(T) -> bool) -> bool {
    s.len() < pow256(8) && forall|i: int| 0 <= i < s.len() ==> fits(#[trigger] s[i])
}

pub open spec fn entry_fits(e: PoseEntryView) -> bool {
    all_fit(e.1, joint_fit())
}

/// Every count and byte length of `d` fits in eight bytes: every database
/// held in memory does.
pub open spec fn db_fits(d: AsanaDataView) -> bool {
    all_fit(d.asanas, asana_fit()) && all_fit(d.poses, entry_fit())
}

pub open spec fn joint_enc() -> spec_fn(Joint) -> Seq<u8> {
    |j: Joint| enc_joint(j)
}

pub open spec fn asana_enc() -> spec_fn(AsanaView) -> Seq<u8> {
    |a: AsanaView| enc_asana(a)
}

pub open spec fn entry_enc() -> spec_fn(PoseEntryView) -> Seq<u8> {
    |e: PoseEntryView| enc_entry(e)
}

pub open spec fn joint_fit() -> spec_fn(Joint) -> bool {
    |j: Joint| joint_fits(j)
}

pub open spec fn asana_fit() -> spec_fn(AsanaView) -> bool {
    |a: AsanaView| asana_fits(a)
}

pub open spec fn entry_fit() -> spec_fn(PoseEntryView) -> bool {
    |e: PoseEntryView| entry_fits(e)
}

/// At any position of any buffer, at most one value that fits has its bytes there.
pub open spec fn prefix_unique<T>(f: spec_fn(T) -> Seq<u8>, fits: spec_fn(T) -> bool) -> bool {
    forall|b: Seq<u8>, p: int, x: T, y: T|
        fits(x) && fits(y) && #[trigger] bytes_at(b, p, f(x)) && #[trigger] bytes_at(b, p, f(y))
            ==> x == y
}

pub proof fn lemma_le_unique(b: Seq<u8>, p: int, v1: nat, v2: nat, w: nat)
    requires
        v1 < pow256(w),
        v2 < pow256(w),
        bytes_at(b, p, le_bytes(v1, w)),
        bytes_at(b, p, le_bytes(v2, w)),
    ensures
        v1 == v2,
{
    lemma_le_bytes_len(v1, w);
    lemma_le_bytes_len(v2, w);
    lemma_le_bytes_injective(v1, v2, w);
}

pub proof fn lemma_i32_bits(v: i32)
    ensures
        i32_bits(v) < pow256(4),
        enc_i32(v).len() == 4,
{
    lemma_pow256_values();
    lemma_le_bytes_len(i32_bits(v), 4);
}

pub proof fn lemma_i32_unique(b: Seq<u8>, p: int, x: i32, y: i32)
    requires
        bytes_at(b, p, enc_i32(x)),
        bytes_at(b, p, enc_i32(y)),
    ensures
        x == y,
{
    lemma_i32_bits(x);
    lemma_i32_bits(y);
    lemma_le_unique(b, p, i32_bits(x), i32_bits(y), 4);
}

pub proof fn lemma_u32_unique(b: Seq<u8>, p: int, x: u32, y: u32)
    requires
        bytes_at(b, p, enc_u32(x)),
        bytes_at(b, p, enc_u32(y)),
    ensures
        x == y,
{
    lemma_pow256_values();
    lemma_le_unique(b, p, x as nat, y as nat, 4);
}

pub proof fn lemma_str_unique(b: Seq<u8>, p: int, x: Seq<char>, y: Seq<char>)
    requires
        str_fits(x),
        str_fits(y),
        bytes_at(b, p, enc_str(x)),
        bytes_at(b, p, enc_str(y)),
    ensures
        x == y,
{
    let ex = encode_utf8(x);
    let ey = encode_utf8(y);
    lemma_bytes_at_concat(b, p, enc_len(ex.len()), ex);
    lemma_bytes_at_concat(b, p, enc_len(ey.len()), ey);
    lemma_le_unique(b, p, ex.len(), ey.len(), 8);
    lemma_le_bytes_len(ex.len(), 8);
    assert(ex == ey);
    encode_utf8_decode_utf8(x);
    encode_utf8_decode_utf8(y);
}

pub proof fn lemma_opt_str_unique(b: Seq<u8>, p: int, x: Option<Seq<char>>, y: Option<Seq<char>>)
    requires
        x is Some ==> str_fits(x->0),
        y is Some ==> str_fits(y->0),
        bytes_at(b, p, enc_opt_str(x)),
        bytes_at(b, p, enc_opt_str(y)),
    ensures
        x == y,
{
    assert(b[p] == enc_opt_str(x)[0]);
    assert(b[p] == enc_opt_str(y)[0]);
    if x is Some && y is Some {
        lemma_bytes_at_concat(b, p, seq![1u8], enc_str(x->0));
        lemma_bytes_at_concat(b, p, seq![1u8], enc_str(y->0));
        lemma_str_unique(b, p + 1, x->0, y->0);
    }
}

pub proof fn lemma_asana_split(b: Seq<u8>, p: int, a: AsanaView)
    ensures
        bytes_at(b, p, enc_asana(a)) <==> {
            &&& bytes_at(b, p, enc_i32(a.asana_id))
            &&& bytes_at(b, p + 4, enc_i32(a.pose_id))
            &&& bytes_at(b, p + 8, enc_str(a.sanskrit))
            &&& bytes_at(b, p + 8 + enc_str(a.sanskrit).len(), enc_str(a.english))
            &&& bytes_at(
                b,
                p + 8 + enc_str(a.sanskrit).len() + enc_str(a.english).len(),
                enc_opt_str(a.notes),
            )
        },
{
    lemma_i32_bits(a.asana_id);
    lemma_i32_bits(a.pose_id);
    let s1 = enc_str(a.sanskrit);
    let s2 = enc_str(a.english);
    let o = enc_opt_str(a.notes);
    lemma_bytes_at_concat(b, p, enc_i32(a.asana_id), enc_i32(a.pose_id) + (s1 + (s2 + o)));
    lemma_bytes_at_concat(b, p + 4, enc_i32(a.pose_id), s1 + (s2 + o));
    lemma_bytes_at_concat(b, p + 8, s1, s2 + o);
    lemma_bytes_at_concat(b, p + 8 + s1.len(), s2, o);
}

pub proof fn lemma_asana_unique(b: Seq<u8>, p: int, x: AsanaView, y: AsanaView)
    requires
        asana_fits(x),
        asana_fits(y),
        bytes_at(b, p, enc_asana(x)),
        bytes_at(b, p, enc_asana(y)),
    ensures
        x == y,
{
    lemma_asana_split(b, p, x);
    lemma_asana_split(b, p, y);
    lemma_i32_unique(b, p, x.asana_id, y.asana_id);
    lemma_i32_unique(b, p + 4, x.pose_id, y.pose_id);
    lemma_str_unique(b, p + 8, x.sanskrit, y.sanskrit);
    lemma_str_unique(b, p + 8 + enc_str(x.sanskrit).len(), x.english, y.english);
    lemma_opt_str_unique(
        b,
        p + 8 + enc_str(x.sanskrit).len() + enc_str(x.english).len(),
        x.notes,
        y.notes,
    );
}

pub proof fn lemma_joint_split(b: Seq<u8>, p: int, j: Joint)
    ensures
        enc_joint(j).len() == 44,
        bytes_at(b, p, enc_joint(j)) <==> {
            &&& bytes_at(b, p, enc_i32(j.joint_id))
            &&& bytes_at(b, p + 4, enc_i32(j.pose_id))
            &&& bytes_at(b, p + 8, enc_u32(j.up_x))
            &&& bytes_at(b, p + 12, enc_u32(j.up_y))
            &&& bytes_at(b, p + 16, enc_u32(j.up_z))
            &&& bytes_at(b, p + 20, enc_u32(j.forward_x))
            &&& bytes_at(b, p + 24, enc_u32(j.forward_y))
            &&& bytes_at(b, p + 28, enc_u32(j.forward_z))
            &&& bytes_at(b, p + 32, enc_u32(j.origin_x))
            &&& bytes_at(b, p + 36, enc_u32(j.origin_y))
            &&& bytes_at(b, p + 40, enc_u32(j.origin_z))
        },
{
    lemma_i32_bits(j.joint_id);
    lemma_i32_bits(j.pose_id);
    lemma_le_bytes_len(j.up_x as nat, 4);
    lemma_le_bytes_len(j.up_y as nat, 4);
    lemma_le_bytes_len(j.up_z as nat, 4);
    lemma_le_bytes_len(j.forward_x as nat, 4);
    lemma_le_bytes_len(j.forward_y as nat, 4);
    lemma_le_bytes_len(j.forward_z as nat, 4);
    lemma_le_bytes_len(j.origin_x as nat, 4);
    lemma_le_bytes_len(j.origin_y as nat, 4);
    lemma_le_bytes_len(j.origin_z as nat, 4);
    let e10 = enc_u32(j.origin_y) + enc_u32(j.origin_z);
    let e9 = enc_u32(j.origin_x) + e10;
    let e8 = enc_u32(j.forward_z) + e9;
    let e7 = enc_u32(j.forward_y) + e8;
    let e6 = enc_u32(j.forward_x) + e7;
    let e5 = enc_u32(j.up_z) + e6;
    let e4 = enc_u32(j.up_y) + e5;
    let e3 = enc_u32(j.up_x) + e4;
    let e2 = enc_i32(j.pose_id) + e3;
    lemma_bytes_at_concat(b, p, enc_i32(j.joint_id), e2);
    lemma_bytes_at_concat(b, p + 4, enc_i32(j.pose_id), e3);
    lemma_bytes_at_concat(b, p + 8, enc_u32(j.up_x), e4);
    lemma_bytes_at_concat(b, p + 12, enc_u32(j.up_y), e5);
    lemma_bytes_at_concat(b, p + 16, enc_u32(j.up_z), e6);
    lemma_bytes_at_concat(b, p + 20, enc_u32(j.forward_x), e7);
    lemma_bytes_at_concat(b, p + 24, enc_u32(j.forward_y), e8);
    lemma_bytes_at_concat(b, p + 28, enc_u32(j.forward_z), e9);
    lemma_bytes_at_concat(b, p + 32, enc_u32(j.origin_x), e10);
    lemma_bytes_at_concat(b, p + 36, enc_u32(j.origin_y), enc_u32(j.origin_z));
}

pub proof fn lemma_joint_unique(b: Seq<u8>, p: int, x: Joint, y: Joint)
    requires
        bytes_at(b, p, enc_joint(x)),
        bytes_at(b, p, enc_joint(y)),
    ensures
        x == y,
{
    lemma_joint_split(b, p, x);
    lemma_joint_split(b, p, y);
    lemma_i32_unique(b, p, x.joint_id, y.joint_id);
    lemma_i32_unique(b, p + 4, x.pose_id, y.pose_id);
    lemma_u32_unique(b, p + 8, x.up_x, y.up_x);
    lemma_u32_unique(b, p + 12, x.up_y, y.up_y);
    lemma_u32_unique(b, p + 16, x.up_z, y.up_z);
    lemma_u32_unique(b, p + 20, x.forward_x, y.forward_x);
    lemma_u32_unique(b, p + 24, x.forward_y, y.forward_y);
    lemma_u32_unique(b, p + 28, x.forward_z, y.forward_z);
    lemma_u32_unique(b, p + 32, x.origin_x, y.origin_x);
    lemma_u32_unique(b, p + 36, x.origin_y, y.origin_y);
    lemma_u32_unique(b, p + 40, x.origin_z, y.origin_z);
}

/// The items of the first `k + 1` are those of the first `k`, then item `k`.
pub proof fn lemma_items_step<T>(s: Seq<T>, k: int, f: spec_fn(T) -> Seq<u8>)
    requires
        0 <= k < s.len(),
    ensures
        enc_items(s.take(k + 1), f) == enc_items(s.take(k), f) + f(s[k]),
{
    assert(s.take(k + 1).drop_last() =~= s.take(k));
}

/// Where the items of `s` stand, those of each prefix of `s` stand too.
pub proof fn lemma_items_prefix<T>(b: Seq<u8>, p: int, s: Seq<T>, k: int, f: spec_fn(T) -> Seq<u8>)
    requires
        bytes_at(b, p, enc_items(s, f)),
        0 <= k <= s.len(),
    ensures
        bytes_at(b, p, enc_items(s.take(k), f)),
    decreases s.len(),
{
    if k == s.len() {
        assert(s.take(k) =~= s);
    } else {
        lemma_bytes_at_concat(b, p, enc_items(s.drop_last(), f), f(s.last()));
        lemma_items_prefix(b, p, s.drop_last(), k, f);
        assert(s.drop_last().take(k) =~= s.take(k));
    }
}

/// Where the items of `s` stand, item `k` follows those before it.
pub proof fn lemma_items_at<T>(b: Seq<u8>, p: int, s: Seq<T>, k: int, f: spec_fn(T) -> Seq<u8>)
    requires
        bytes_at(b, p, enc_items(s, f)),
        0 <= k < s.len(),
    ensures
        bytes_at(b, p, enc_items(s.take(k), f)),
        bytes_at(b, p + enc_items(s.take(k), f).len(), f(s[k])),
{
    lemma_items_prefix(b, p, s, k + 1, f);
    lemma_items_step(s, k, f);
    lemma_bytes_at_concat(b, p, enc_items(s.take(k), f), f(s[k]));
}

pub proof fn lemma_items_unique<T>(
    b: Seq<u8>,
    p: int,
    x: Seq<T>,
    y: Seq<T>,
    f: spec_fn(T) -> Seq<u8>,
    fits: spec_fn(T) -> bool,
)
    requires
        prefix_unique(f, fits),
        x.len() == y.len(),
        forall|i: int| 0 <= i < x.len() ==> fits(#[trigger] x[i]),
        forall|i: int| 0 <= i < y.len() ==> fits(#[trigger] y[i]),
        bytes_at(b, p, enc_items(x, f)),
        bytes_at(b, p, enc_items(y, f)),
    ensures
        x == y,
    decreases x.len(),
{
    if x.len() > 0 {
        let n = x.len() - 1;
        lemma_bytes_at_concat(b, p, enc_items(x.drop_last(), f), f(x.last()));
        lemma_bytes_at_concat(b, p, enc_items(y.drop_last(), f), f(y.last()));
        lemma_items_unique(b, p, x.drop_last(), y.drop_last(), f, fits);
        assert(fits(x[n]) && fits(y[n]));
        assert(bytes_at(b, p + enc_items(x.drop_last(), f).len(), f(x.last())));
        assert(x.last() == y.last());
        assert(x =~= y.drop_last().push(y.last()));
        assert(y =~= y.drop_last().push(y.last()));
    } else {
        assert(x =~= y);
    }
}

pub proof fn lemma_list_unique<T>(
    b: Seq<u8>,
    p: int,
    x: Seq<T>,
    y: Seq<T>,
    f: spec_fn(T) -> Seq<u8>,
    fits: spec_fn(T) -> bool,
)
    requires
        prefix_unique(f, fits),
        all_fit(x, fits),
        all_fit(y, fits),
        bytes_at(b, p, enc_list(x, f)),
        bytes_at(b, p, enc_list(y, f)),
    ensures
        x == y,
{
    lemma_bytes_at_concat(b, p, enc_len(x.len()), enc_items(x, f));
    lemma_bytes_at_concat(b, p, enc_len(y.len()), enc_items(y, f));
    lemma_le_unique(b, p, x.len(), y.len(), 8);
    lemma_le_bytes_len(x.len(), 8);
    lemma_items_unique(b, p + 8, x, y, f, fits);
}

pub proof fn lemma_entry_unique(b: Seq<u8>, p: int, x: PoseEntryView, y: PoseEntryView)
    requires
        entry_fits(x),
        entry_fits(y),
        bytes_at(b, p, enc_entry(x)),
        bytes_at(b, p, enc_entry(y)),
    ensures
        x == y,
{
    let f = joint_enc();
    let fits = joint_fit();
    lemma_i32_bits(x.0);
    lemma_bytes_at_concat(b, p, enc_i32(x.0), enc_list(x.1, f));
    lemma_bytes_at_concat(b, p, enc_i32(y.0), enc_list(y.1, f));
    lemma_i32_unique(b, p, x.0, y.0);
    assert(prefix_unique(f, fits)) by {
        assert forall|b2: Seq<u8>, at2: int, u: Joint, v: Joint|
            fits(u) && fits(v) && #[trigger] bytes_at(b2, at2, f(u)) && #[trigger] bytes_at(
                b2,
                at2,
                f(v),
            ) implies u == v by {
            lemma_joint_unique(b2, at2, u, v);
        }
    }
    lemma_list_unique(b, p + 4, x.1, y.1, f, fits);
}

pub proof fn lemma_asana_prefix_unique()
    ensures
        prefix_unique(asana_enc(), asana_fit()),
{
    let fa = asana_enc();
    let ffa = asana_fit();
    assert forall|b2: Seq<u8>, at2: int, u: AsanaView, v: AsanaView|
        ffa(u) && ffa(v) && #[trigger] bytes_at(b2, at2, fa(u)) && #[trigger] bytes_at(
            b2,
            at2,
            fa(v),
        ) implies u == v by {
        lemma_asana_unique(b2, at2, u, v);
    }
}

pub proof fn lemma_entry_prefix_unique()
    ensures
        prefix_unique(entry_enc(), entry_fit()),
{
    let fe = entry_enc();
    let ffe = entry_fit();
    assert forall|b2: Seq<u8>, at2: int, u: PoseEntryView, v: PoseEntryView|
        ffe(u) && ffe(v) && #[trigger] bytes_at(b2, at2, fe(u)) && #[trigger] bytes_at(
            b2,
            at2,
            fe(v),
        ) implies u == v by {
        lemma_entry_unique(b2, at2, u, v);
    }
}

/// Where the bytes of one database that fits stand, no other database that
/// fits has its bytes, nor a longer or shorter form of them.
pub proof fn lemma_db_unique(b: Seq<u8>, p: int, x: AsanaDataView, y: AsanaDataView)
    requires
        db_fits(x),
        db_fits(y),
        bytes_at(b, p, encode_db(x)),
        bytes_at(b, p, encode_db(y)),
    ensures
        x == y,
{
    let fa = asana_enc();
    let fe = entry_enc();
    lemma_asana_prefix_unique();
    lemma_entry_prefix_unique();
    lemma_bytes_at_concat(b, p, enc_list(x.asanas, fa), enc_list(x.poses, fe));
    lemma_bytes_at_concat(b, p, enc_list(y.asanas, fa), enc_list(y.poses, fe));
    lemma_list_unique(b, p, x.asanas, y.asanas, fa, asana_fit());
    lemma_list_unique(b, p + enc_list(x.asanas, fa).len(), x.poses, y.poses, fe, entry_fit());
}

fn push_i32(out: &mut Vec<u8>, v: i32)
    ensures
        final(out)@ == old(out)@ + enc_i32(v),
{
    let bits: u64 = if v >= 0 {
        v as u64
    } else {
        (v as i64 + 0x1_0000_0000) as u64
    };
    push_le(out, bits, 4);
}

fn push_u32(out: &mut Vec<u8>, v: u32)
    ensures
        final(out)@ == old(out)@ + enc_u32(v),
{
    push_le(out, v as u64, 4);
}

fn push_str(out: &mut Vec<u8>, s: &String)
    ensures
        final(out)@ == old(out)@ + enc_str(s@),
        str_fits(s@),
{
    let bytes = s.as_str().as_bytes();
    let n = bytes.len();
    proof {
        lemma_pow256_values();
    }
    push_le(out, n as u64, 8);
    let ghost start = out@;
    let mut i: usize = 0;
    while i < n
        invariant
            i <= n == bytes@.len(),
            out@ == start + bytes@.take(i as int),
        decreases n - i,
    {
        out.push(bytes[i]);
        assert(bytes@.take(i + 1) =~= bytes@.take(i as int).push(bytes@[i as int]));
        i = i + 1;
    }
    assert(bytes@.take(n as int) =~= bytes@);
    assert(out@ =~= old(out)@ + enc_str(s@));
}

fn push_asana(out: &mut Vec<u8>, a: &Asana)
    ensures
        final(out)@ == old(out)@ + enc_asana(a@),
        asana_fits(a@),
{
    let ghost start = out@;
    push_i32(out, a.asana_id);
    push_i32(out, a.pose_id);
    push_str(out, &a.sanskrit);
    push_str(out, &a.english);
    let ghost before_notes = out@;
    match &a.notes {
        None => {
            out.push(0u8);
        },
        Some(n) => {
            out.push(1u8);
            push_str(out, n);
        },
    }
    assert(out@ =~= before_notes + enc_opt_str(a@.notes));
    assert(out@ =~= start + enc_asana(a@));
}

fn push_joint(out: &mut Vec<u8>, j: &Joint)
    ensures
        final(out)@ == old(out)@ + enc_joint(*j),
{
    let ghost start = out@;
    push_i32(out, j.joint_id);
    push_i32(out, j.pose_id);
    push_u32(out, j.up_x);
    push_u32(out, j.up_y);
    push_u32(out, j.up_z);
    push_u32(out, j.forward_x);
    push_u32(out, j.forward_y);
    push_u32(out, j.forward_z);
    push_u32(out, j.origin_x);
    push_u32(out, j.origin_y);
    push_u32(out, j.origin_z);
    assert(out@ =~= start + enc_joint(*j));
}

fn push_joints(out: &mut Vec<u8>, js: &Vec<Joint>)
    ensures
        final(out)@ == old(out)@ + enc_list(js@, joint_enc()),
        all_fit(js@, joint_fit()),
{
    let ghost f = joint_enc();
    let n = js.len();
    proof {
        lemma_pow256_values();
    }
    push_le(out, n as u64, 8);
    let ghost start = out@;
    let mut i: usize = 0;
    while i < n
        invariant
            i <= n == js@.len(),
            f == joint_enc(),
            out@ == start + enc_items(js@.take(i as int), f),
        decreases n - i,
    {
        proof {
            lemma_items_step(js@, i as int, f);
        }
        push_joint(out, &js[i]);
        assert(out@ =~= start + enc_items(js@.take(i + 1), f));
        i = i + 1;
    }
    assert(js@.take(n as int) =~= js@);
    assert(out@ =~= old(out)@ + enc_list(js@, f));
}

impl AsanaData {
    /// The bytes of this database.
    pub fn encode(&self) -> (r: Vec<u8>)
        ensures
            r@ == encode_db(self@),
            db_fits(self@),
    {
        let ghost fa = asana_enc();
        let ghost fe = entry_enc();
        let mut out: Vec<u8> = Vec::new();
        proof {
            lemma_pow256_values();
        }
        let n = self.asanas.len();
        push_le(&mut out, n as u64, 8);
        let ghost start = out@;
        let mut i: usize = 0;
        while i < n
            invariant
                i <= n == self@.asanas.len(),
                fa == asana_enc(),
                out@ == start + enc_items(self@.asanas.take(i as int), fa),
                forall|k: int| 0 <= k < i ==> asana_fits(#[trigger] self@.asanas[k]),
            decreases n - i,
        {
            proof {
                lemma_items_step(self@.asanas, i as int, fa);
            }
            push_asana(&mut out, &self.asanas[i]);
            assert(out@ =~= start + enc_items(self@.asanas.take(i + 1), fa));
            i = i + 1;
        }
        assert(self@.asanas.take(n as int) =~= self@.asanas);
        let ghost mid = out@;
        assert(mid =~= enc_list(self@.asanas, fa));
        let m = self.poses.len();
        push_le(&mut out, m as u64, 8);
        let ghost start2 = out@;
        let mut i: usize = 0;
        while i < m
            invariant
                i <= m == self@.poses.len(),
                fe == entry_enc(),
                out@ == start2 + enc_items(self@.poses.take(i as int), fe),
                forall|k: int| 0 <= k < i ==> entry_fits(#[trigger] self@.poses[k]),
            decreases m - i,
        {
            proof {
                lemma_items_step(self@.poses, i as int, fe);
            }
            let ghost before = out@;
            push_i32(&mut out, self.poses[i].0);
            push_joints(&mut out, &self.poses[i].1);
            assert(out@ =~= before + enc_entry(self@.poses[i as int]));
            assert(out@ =~= start2 + enc_items(self@.poses.take(i + 1), fe));
            i = i + 1;
        }
        assert(self@.poses.take(m as int) =~= self@.poses);
        assert(out@ =~= encode_db(self@));
        out
    }
}

fn get_i32(b: &[u8], pos: usize) -> (v: i32)
    requires
        pos + 4 <= b@.len(),
    ensures
        bytes_at(b@, pos as int, enc_i32(v)),
{
    let x = read_le(b, pos, 4);
    proof {
        let s = b@.subrange(pos as int, pos + 4);
        lemma_le_value_bound(s);
        lemma_le_bytes_of_value(s);
        lemma_pow256_values();
    }
    let v: i32 = if x < 0x8000_0000 {
        x as i32
    } else {
        (x as i64 - 0x1_0000_0000) as i32
    };
    assert(i32_bits(v) == x);
    v
}

fn get_u32(b: &[u8], pos: usize) -> (v: u32)
    requires
        pos + 4 <= b@.len(),
    ensures
        bytes_at(b@, pos as int, enc_u32(v)),
{
    let x = read_le(b, pos, 4);
    proof {
        let s = b@.subrange(pos as int, pos + 4);
        lemma_le_value_bound(s);
        lemma_le_bytes_of_value(s);
        lemma_pow256_values();
    }
    x as u32
}

fn read_i32(b: &[u8], pos: usize) -> (r: Option<(i32, usize)>)
    ensures
        match r {
            Some((v, q)) => bytes_at(b@, pos as int, enc_i32(v)) && q == pos + 4,
            None => forall|v: i32| !#[trigger] bytes_at(b@, pos as int, enc_i32(v)),
        },
{
    let n = b.len();
    if n < 4 || pos > n - 4 {
        assert forall|v: i32| !#[trigger] bytes_at(b@, pos as int, enc_i32(v)) by {
            lemma_i32_bits(v);
        }
        None
    } else {
        Some((get_i32(b, pos), pos + 4))
    }
}

fn read_len(b: &[u8], pos: usize) -> (r: Option<(u64, usize)>)
    ensures
        match r {
            Some((v, q)) => bytes_at(b@, pos as int, enc_len(v as nat)) && q == pos + 8,
            None => forall|v: nat| !#[trigger] bytes_at(b@, pos as int, enc_len(v)),
        },
{
    let n = b.len();
    if n < 8 || pos > n - 8 {
        assert forall|v: nat| !#[trigger] bytes_at(b@, pos as int, enc_len(v)) by {
            lemma_le_bytes_len(v, 8);
        }
        None
    } else {
        let x = read_le(b, pos, 8);
        proof {
            lemma_le_bytes_of_value(b@.subrange(pos as int, pos + 8));
        }
        Some((x, pos + 8))
    }
}

/// Relies on `String::from_utf8`: it accepts exactly the valid UTF-8 byte
/// sequences, and the string it gives holds the characters they encode.
#[verifier::external_body]
fn string_from_utf8(v: Vec<u8>) -> (r: Option<String>)
    ensures
        r is Some <==> valid_utf8(v@),
        r is Some ==> r->0@ == decode_utf8(v@),
{
    String::from_utf8(v).ok()
}

fn read_str(b: &[u8], pos: usize) -> (r: Option<(String, usize)>)
    ensures
        match r {
            Some((s, q)) => bytes_at(b@, pos as int, enc_str(s@)) && q == pos + enc_str(s@).len()
                && str_fits(s@),
            None => forall|t: Seq<char>| str_fits(t) ==> !#[trigger] bytes_at(b@, pos as int, enc_str(t)),
        },
{
    let len = b.len();
    match read_len(b, pos) {
        None => {
            assert forall|t: Seq<char>| str_fits(t) implies !#[trigger] bytes_at(
                b@,
                pos as int,
                enc_str(t),
            ) by {
                lemma_bytes_at_concat(b@, pos as int, enc_len(encode_utf8(t).len()), encode_utf8(t));
            }
            None
        },
        Some((n, q)) => {
            proof {
                lemma_pow256_values();
                lemma_le_bytes_len(n as nat, 8);
            }
            if n > (len - q) as u64 {
                assert forall|t: Seq<char>| str_fits(t) implies !#[trigger] bytes_at(
                    b@,
                    pos as int,
                    enc_str(t),
                ) by {
                    let e = encode_utf8(t);
                    lemma_bytes_at_concat(b@, pos as int, enc_len(e.len()), e);
                    if bytes_at(b@, pos as int, enc_str(t)) {
                        lemma_le_unique(b@, pos as int, e.len(), n as nat, 8);
                        lemma_le_bytes_len(e.len(), 8);
                    }
                }
                return None;
            }
            let n = n as usize;
            let mut v: Vec<u8> = Vec::new();
            let mut i: usize = 0;
            while i < n
                invariant
                    i <= n,
                    q + n <= b@.len(),
                    b@.len() == len,
                    v@ == b@.subrange(q as int, q + i),
                decreases n - i,
            {
                v.push(b[q + i]);
                assert(v@ =~= b@.subrange(q as int, q + i + 1));
                i = i + 1;
            }
            let ghost bytes = v@;
            match string_from_utf8(v) {
                None => {
                    assert forall|t: Seq<char>| str_fits(t) implies !#[trigger] bytes_at(
                        b@,
                        pos as int,
                        enc_str(t),
                    ) by {
                        let e = encode_utf8(t);
                        lemma_bytes_at_concat(b@, pos as int, enc_len(e.len()), e);
                        if bytes_at(b@, pos as int, enc_str(t)) {
                            lemma_le_unique(b@, pos as int, e.len(), n as nat, 8);
                            lemma_le_bytes_len(e.len(), 8);
                            assert(e == bytes);
                            encode_utf8_valid_utf8(t);
                        }
                    }
                    None
                },
                Some(s) => {
                    proof {
                        decode_utf8_encode_utf8(bytes);
                        lemma_le_bytes_len(n as nat, 8);
                        lemma_bytes_at_concat(b@, pos as int, enc_len(n as nat), bytes);
                    }
                    Some((s, q + n))
                },
            }
        },
    }
}

fn read_opt_str(b: &[u8], pos: usize) -> (r: Option<(Option<String>, usize)>)
    ensures
        match r {
            Some((o, q)) => bytes_at(b@, pos as int, enc_opt_str(opt_string_view(o))) && q == pos
                + enc_opt_str(opt_string_view(o)).len() && (o is Some ==> str_fits(o->0@)),
            None => forall|t: Option<Seq<char>>|
                (t is Some ==> str_fits(t->0)) ==> !#[trigger] bytes_at(
                    b@,
                    pos as int,
                    enc_opt_str(t),
                ),
        },
{
    if pos >= b.len() {
        return None;
    }
    let tag = b[pos];
    if tag == 0 {
        assert(b@.subrange(pos as int, pos + 1) =~= seq![0u8]);
        Some((None, pos + 1))
    } else if tag == 1 {
        match read_str(b, pos + 1) {
            None => {
                assert forall|t: Option<Seq<char>>| (t is Some ==> str_fits(t->0)) implies !#[trigger] bytes_at(
                    b@,
                    pos as int,
                    enc_opt_str(t),
                ) by {
                    if t is Some {
                        lemma_bytes_at_concat(b@, pos as int, seq![1u8], enc_str(t->0));
                    } else if bytes_at(b@, pos as int, enc_opt_str(t)) {
                        assert(b@[pos as int] == enc_opt_str(t)[0]);
                    }
                }
                None
            },
            Some((s, q)) => {
                assert(b@.subrange(pos as int, pos + 1) =~= seq![1u8]);
                proof {
                    lemma_bytes_at_concat(b@, pos as int, seq![1u8], enc_str(s@));
                }
                Some((Some(s), q))
            },
        }
    } else {
        assert forall|t: Option<Seq<char>>| (t is Some ==> str_fits(t->0)) implies !#[trigger] bytes_at(
            b@,
            pos as int,
            enc_opt_str(t),
        ) by {
            if bytes_at(b@, pos as int, enc_opt_str(t)) {
                assert(b@[pos as int] == enc_opt_str(t)[0]);
            }
        }
        None
    }
}

fn read_asana(b: &[u8], pos: usize) -> (r: Option<(Asana, usize)>)
    ensures
        match r {
            Some((a, q)) => bytes_at(b@, pos as int, enc_asana(a@)) && q == pos + enc_asana(a@).len()
                && asana_fits(a@),
            None => forall|y: AsanaView| asana_fits(y) ==> !#[trigger] bytes_at(b@, pos as int, enc_asana(y)),
        },
{
    let (asana_id, at1) = match read_i32(b, pos) {
        Some(x) => x,
        None => {
            assert forall|y: AsanaView| asana_fits(y) implies !#[trigger] bytes_at(
                b@,
                pos as int,
                enc_asana(y),
            ) by {
                lemma_asana_split(b@, pos as int, y);
            }
            return None;
        },
    };
    let (pose_id, at2) = match read_i32(b, at1) {
        Some(x) => x,
        None => {
            assert forall|y: AsanaView| asana_fits(y) implies !#[trigger] bytes_at(
                b@,
                pos as int,
                enc_asana(y),
            ) by {
                lemma_asana_split(b@, pos as int, y);
            }
            return None;
        },
    };
    let (sanskrit, at3) = match read_str(b, at2) {
        Some(x) => x,
        None => {
            assert forall|y: AsanaView| asana_fits(y) implies !#[trigger] bytes_at(
                b@,
                pos as int,
                enc_asana(y),
            ) by {
                lemma_asana_split(b@, pos as int, y);
            }
            return None;
        },
    };
    let (english, at4) = match read_str(b, at3) {
        Some(x) => x,
        None => {
            assert forall|y: AsanaView| asana_fits(y) implies !#[trigger] bytes_at(
                b@,
                pos as int,
                enc_asana(y),
            ) by {
                lemma_asana_split(b@, pos as int, y);
                if bytes_at(b@, pos as int, enc_asana(y)) {
                    lemma_str_unique(b@, pos + 8, y.sanskrit, sanskrit@);
                }
            }
            return None;
        },
    };
    let (notes, at5) = match read_opt_str(b, at4) {
        Some(x) => x,
        None => {
            assert forall|y: AsanaView| asana_fits(y) implies !#[trigger] bytes_at(
                b@,
                pos as int,
                enc_asana(y),
            ) by {
                lemma_asana_split(b@, pos as int, y);
                if bytes_at(b@, pos as int, enc_asana(y)) {
                    lemma_str_unique(b@, pos + 8, y.sanskrit, sanskrit@);
                    lemma_str_unique(b@, at3 as int, y.english, english@);
                }
            }
            return None;
        },
    };
    let a = Asana { asana_id, pose_id, sanskrit, english, notes };
    proof {
        lemma_asana_split(b@, pos as int, a@);
        lemma_i32_bits(asana_id);
        lemma_i32_bits(pose_id);
    }
    Some((a, at5))
}

fn read_joint(b: &[u8], pos: usize) -> (r: Option<(Joint, usize)>)
    ensures
        match r {
            Some((j, q)) => bytes_at(b@, pos as int, enc_joint(j)) && q == pos + 44,
            None => forall|y: Joint| !#[trigger] bytes_at(b@, pos as int, enc_joint(y)),
        },
{
    let n = b.len();
    if n < 44 || pos > n - 44 {
        assert forall|y: Joint| !#[trigger] bytes_at(b@, pos as int, enc_joint(y)) by {
            lemma_joint_split(b@, pos as int, y);
        }
        return None;
    }
    let j = Joint {
        joint_id: get_i32(b, pos),
        pose_id: get_i32(b, pos + 4),
        up_x: get_u32(b, pos + 8),
        up_y: get_u32(b, pos + 12),
        up_z: get_u32(b, pos + 16),
        forward_x: get_u32(b, pos + 20),
        forward_y: get_u32(b, pos + 24),
        forward_z: get_u32(b, pos + 28),
        origin_x: get_u32(b, pos + 32),
        origin_y: get_u32(b, pos + 36),
        origin_z: get_u32(b, pos + 40),
    };
    proof {
        lemma_joint_split(b@, pos as int, j);
    }
    Some((j, pos + 44))
}

proof fn lemma_items_push<T>(s: Seq<T>, x: T, f: spec_fn(T) -> Seq<u8>)
    ensures
        enc_items(s.push(x), f) == enc_items(s, f) + f(x),
{
    assert(s.push(x).drop_last() =~= s);
}

fn read_joints(b: &[u8], pos: usize) -> (r: Option<(Vec<Joint>, usize)>)
    ensures
        match r {
            Some((v, q)) => bytes_at(b@, pos as int, enc_list(v@, joint_enc())) && q == pos
                + enc_list(v@, joint_enc()).len() && all_fit(v@, joint_fit()),
            None => forall|y: Seq<Joint>|
                all_fit(y, joint_fit()) ==> !#[trigger] bytes_at(
                    b@,
                    pos as int,
                    enc_list(y, joint_enc()),
                ),
        },
{
    let ghost f = joint_enc();
    let ghost fits = joint_fit();
    proof {
        lemma_pow256_values();
    }
    let (n, start) = match read_len(b, pos) {
        Some(x) => x,
        None => {
            assert forall|y: Seq<Joint>| all_fit(y, fits) implies !#[trigger] bytes_at(
                b@,
                pos as int,
                enc_list(y, f),
            ) by {
                lemma_bytes_at_concat(b@, pos as int, enc_len(y.len()), enc_items(y, f));
            }
            return None;
        },
    };
    proof {
        lemma_le_bytes_len(n as nat, 8);
    }
    let mut out: Vec<Joint> = Vec::new();
    assert(b@.subrange(start as int, start as int) =~= enc_items(out@, f));
    let mut p: usize = start;
    let mut k: u64 = 0;
    while k < n
        invariant
            f == joint_enc(),
            fits == joint_fit(),
            pow256(8) == 0x1_0000_0000_0000_0000,
            k <= n,
            out@.len() == k,
            bytes_at(b@, pos as int, enc_len(n as nat)),
            start == pos + 8,
            bytes_at(b@, start as int, enc_items(out@, f)),
            p == start + enc_items(out@, f).len(),
            forall|y: Seq<Joint>|
                y.len() == n && bytes_at(b@, start as int, #[trigger] enc_items(y, f)) ==> y.take(
                    k as int,
                ) == out@,
        decreases n - k,
    {
        match read_joint(b, p) {
            None => {
                assert forall|y: Seq<Joint>| all_fit(y, fits) implies !#[trigger] bytes_at(
                    b@,
                    pos as int,
                    enc_list(y, f),
                ) by {
                    lemma_bytes_at_concat(b@, pos as int, enc_len(y.len()), enc_items(y, f));
                    if bytes_at(b@, pos as int, enc_list(y, f)) {
                        lemma_le_unique(b@, pos as int, y.len(), n as nat, 8);
                        lemma_le_bytes_len(y.len(), 8);
                        lemma_items_at(b@, start as int, y, k as int, f);
                    }
                }
                return None;
            },
            Some((j, q)) => {
                proof {
                    lemma_joint_split(b@, p as int, j);
                    lemma_items_push(out@, j, f);
                    lemma_bytes_at_concat(b@, start as int, enc_items(out@, f), f(j));
                    assert forall|y: Seq<Joint>|
                        y.len() == n && bytes_at(
                            b@,
                            start as int,
                            #[trigger] enc_items(y, f),
                        ) implies y.take(k + 1) == out@.push(j) by {
                        lemma_items_at(b@, start as int, y, k as int, f);
                        lemma_joint_unique(b@, p as int, y[k as int], j);
                        assert(y.take(k + 1) =~= y.take(k as int).push(y[k as int]));
                    }
                }
                out.push(j);
                p = q;
                k = k + 1;
            },
        }
    }
    proof {
        lemma_bytes_at_concat(b@, pos as int, enc_len(n as nat), enc_items(out@, f));
    }
    Some((out, p))
}

fn read_entry(b: &[u8], pos: usize) -> (r: Option<(PoseEntry, usize)>)
    ensures
        match r {
            Some((e, q)) => bytes_at(b@, pos as int, enc_entry(entry_view(e))) && q == pos + enc_entry(
                entry_view(e),
            ).len() && entry_fits(entry_view(e)),
            None => forall|y: PoseEntryView|
                entry_fits(y) ==> !#[trigger] bytes_at(b@, pos as int, enc_entry(y)),
        },
{
    let (pose_id, at1) = match read_i32(b, pos) {
        Some(x) => x,
        None => {
            assert forall|y: PoseEntryView| entry_fits(y) implies !#[trigger] bytes_at(
                b@,
                pos as int,
                enc_entry(y),
            ) by {
                lemma_bytes_at_concat(b@, pos as int, enc_i32(y.0), enc_list(y.1, joint_enc()));
            }
            return None;
        },
    };
    let (joints, at2) = match read_joints(b, at1) {
        Some(x) => x,
        None => {
            assert forall|y: PoseEntryView| entry_fits(y) implies !#[trigger] bytes_at(
                b@,
                pos as int,
                enc_entry(y),
            ) by {
                lemma_bytes_at_concat(b@, pos as int, enc_i32(y.0), enc_list(y.1, joint_enc()));
                lemma_i32_bits(y.0);
            }
            return None;
        },
    };
    proof {
        lemma_i32_bits(pose_id);
        lemma_bytes_at_concat(b@, pos as int, enc_i32(pose_id), enc_list(joints@, joint_enc()));
    }
    Some(((pose_id, joints), at2))
}

fn read_asanas(b: &[u8], pos: usize) -> (r: Option<(Vec<Asana>, usize)>)
    ensures
        match r {
            Some((v, q)) => bytes_at(b@, pos as int, enc_list(v@.map_values(|a: Asana| a@), asana_enc()))
                && q == pos + enc_list(v@.map_values(|a: Asana| a@), asana_enc()).len() && all_fit(
                v@.map_values(|a: Asana| a@),
                asana_fit(),
            ),
            None => forall|y: Seq<AsanaView>|
                all_fit(y, asana_fit()) ==> !#[trigger] bytes_at(
                    b@,
                    pos as int,
                    enc_list(y, asana_enc()),
                ),
        },
{
    let ghost f = asana_enc();
    let ghost fits = asana_fit();
    proof {
        lemma_pow256_values();
    }
    let (n, start) = match read_len(b, pos) {
        Some(x) => x,
        None => {
            assert forall|y: Seq<AsanaView>| all_fit(y, fits) implies !#[trigger] bytes_at(
                b@,
                pos as int,
                enc_list(y, f),
            ) by {
                lemma_bytes_at_concat(b@, pos as int, enc_len(y.len()), enc_items(y, f));
            }
            return None;
        },
    };
    proof {
        lemma_le_bytes_len(n as nat, 8);
    }
    let mut out: Vec<Asana> = Vec::new();
    let ghost mut vs: Seq<AsanaView> = Seq::empty();
    assert(out@.map_values(|a: Asana| a@) =~= vs);
    assert(b@.subrange(start as int, start as int) =~= enc_items(vs, f));
    let mut p: usize = start;
    let mut k: u64 = 0;
    while k < n
        invariant
            f == asana_enc(),
            fits == asana_fit(),
            pow256(8) == 0x1_0000_0000_0000_0000,
            k <= n,
            vs.len() == k,
            vs == out@.map_values(|a: Asana| a@),
            forall|i: int| 0 <= i < vs.len() ==> asana_fits(#[trigger] vs[i]),
            bytes_at(b@, pos as int, enc_len(n as nat)),
            start == pos + 8,
            bytes_at(b@, start as int, enc_items(vs, f)),
            p == start + enc_items(vs, f).len(),
            forall|y: Seq<AsanaView>|
                y.len() == n && all_fit(y, fits) && bytes_at(
                    b@,
                    start as int,
                    #[trigger] enc_items(y, f),
                ) ==> y.take(k as int) == vs,
        decreases n - k,
    {
        match read_asana(b, p) {
            None => {
                assert forall|y: Seq<AsanaView>| all_fit(y, fits) implies !#[trigger] bytes_at(
                    b@,
                    pos as int,
                    enc_list(y, f),
                ) by {
                    lemma_bytes_at_concat(b@, pos as int, enc_len(y.len()), enc_items(y, f));
                    if bytes_at(b@, pos as int, enc_list(y, f)) {
                        lemma_le_unique(b@, pos as int, y.len(), n as nat, 8);
                        lemma_le_bytes_len(y.len(), 8);
                        lemma_items_at(b@, start as int, y, k as int, f);
                        assert(asana_fits(y[k as int]));
                    }
                }
                return None;
            },
            Some((a, q)) => {
                proof {
                    lemma_items_push(vs, a@, f);
                    lemma_bytes_at_concat(b@, start as int, enc_items(vs, f), f(a@));
                    assert forall|y: Seq<AsanaView>|
                        y.len() == n && all_fit(y, fits) && bytes_at(
                            b@,
                            start as int,
                            #[trigger] enc_items(y, f),
                        ) implies y.take(k + 1) == vs.push(a@) by {
                        lemma_items_at(b@, start as int, y, k as int, f);
                        assert(asana_fits(y[k as int]));
                        lemma_asana_unique(b@, p as int, y[k as int], a@);
                        assert(y.take(k + 1) =~= y.take(k as int).push(y[k as int]));
                    }
                }
                let ghost av = a@;
                out.push(a);
                proof {
                    vs = vs.push(av);
                    assert(vs =~= out@.map_values(|a: Asana| a@));
                }
                p = q;
                k = k + 1;
            },
        }
    }
    proof {
        lemma_bytes_at_concat(b@, pos as int, enc_len(n as nat), enc_items(vs, f));
    }
    Some((out, p))
}

fn read_entries(b: &[u8], pos: usize) -> (r: Option<(Vec<PoseEntry>, usize)>)
    ensures
        match r {
            Some((v, q)) => bytes_at(
                b@,
                pos as int,
                enc_list(v@.map_values(|e: PoseEntry| entry_view(e)), entry_enc()),
            ) && q == pos + enc_list(v@.map_values(|e: PoseEntry| entry_view(e)), entry_enc()).len()
                && all_fit(v@.map_values(|e: PoseEntry| entry_view(e)), entry_fit()),
            None => forall|y: Seq<PoseEntryView>|
                all_fit(y, entry_fit()) ==> !#[trigger] bytes_at(
                    b@,
                    pos as int,
                    enc_list(y, entry_enc()),
                ),
        },
{
    let ghost f = entry_enc();
    let ghost fits = entry_fit();
    proof {
        lemma_pow256_values();
    }
    let (n, start) = match read_len(b, pos) {
        Some(x) => x,
        None => {
            assert forall|y: Seq<PoseEntryView>| all_fit(y, fits) implies !#[trigger] bytes_at(
                b@,
                pos as int,
                enc_list(y, f),
            ) by {
                lemma_bytes_at_concat(b@, pos as int, enc_len(y.len()), enc_items(y, f));
            }
            return None;
        },
    };
    proof {
        lemma_le_bytes_len(n as nat, 8);
    }
    let mut out: Vec<PoseEntry> = Vec::new();
    let ghost mut vs: Seq<PoseEntryView> = Seq::empty();
    assert(out@.map_values(|e: PoseEntry| entry_view(e)) =~= vs);
    assert(b@.subrange(start as int, start as int) =~= enc_items(vs, f));
    let mut p: usize = start;
    let mut k: u64 = 0;
    while k < n
        invariant
            f == entry_enc(),
            fits == entry_fit(),
            pow256(8) == 0x1_0000_0000_0000_0000,
            k <= n,
            vs.len() == k,
            vs == out@.map_values(|e: PoseEntry| entry_view(e)),
            forall|i: int| 0 <= i < vs.len() ==> entry_fits(#[trigger] vs[i]),
            bytes_at(b@, pos as int, enc_len(n as nat)),
            start == pos + 8,
            bytes_at(b@, start as int, enc_items(vs, f)),
            p == start + enc_items(vs, f).len(),
            forall|y: Seq<PoseEntryView>|
                y.len() == n && all_fit(y, fits) && bytes_at(
                    b@,
                    start as int,
                    #[trigger] enc_items(y, f),
                ) ==> y.take(k as int) == vs,
        decreases n - k,
    {
        match read_entry(b, p) {
            None => {
                assert forall|y: Seq<PoseEntryView>| all_fit(y, fits) implies !#[trigger] bytes_at(
                    b@,
                    pos as int,
                    enc_list(y, f),
                ) by {
                    lemma_bytes_at_concat(b@, pos as int, enc_len(y.len()), enc_items(y, f));
                    if bytes_at(b@, pos as int, enc_list(y, f)) {
                        lemma_le_unique(b@, pos as int, y.len(), n as nat, 8);
                        lemma_le_bytes_len(y.len(), 8);
                        lemma_items_at(b@, start as int, y, k as int, f);
                        assert(entry_fits(y[k as int]));
                    }
                }
                return None;
            },
            Some((e, q)) => {
                let ghost ev = entry_view(e);
                proof {
                    lemma_items_push(vs, ev, f);
                    lemma_bytes_at_concat(b@, start as int, enc_items(vs, f), f(ev));
                    assert forall|y: Seq<PoseEntryView>|
                        y.len() == n && all_fit(y, fits) && bytes_at(
                            b@,
                            start as int,
                            #[trigger] enc_items(y, f),
                        ) implies y.take(k + 1) == vs.push(ev) by {
                        lemma_items_at(b@, start as int, y, k as int, f);
                        assert(entry_fits(y[k as int]));
                        lemma_entry_unique(b@, p as int, y[k as int], ev);
                        assert(y.take(k + 1) =~= y.take(k as int).push(y[k as int]));
                    }
                }
                out.push(e);
                proof {
                    vs = vs.push(ev);
                    assert(vs =~= out@.map_values(|e: PoseEntry| entry_view(e)));
                }
                p = q;
                k = k + 1;
            },
        }
    }
    proof {
        lemma_bytes_at_concat(b@, pos as int, enc_len(n as nat), enc_items(vs, f));
    }
    Some((out, p))
}

/// Why a byte sequence is not a pose database.
#[derive(Clone, Copy, Debug, PartialEq, Eq, Structural)]
pub enum DecodeError {
    /// The bytes encode no database: they end early, a count claims more than
    /// remains, text is not UTF-8, an option tag is neither 0 nor 1, or bytes
    /// are left over at the end.
    Malformed,
    /// The bytes encode a database in which two joint lists share a pose id.
    DuplicatePose,
}

/// `b` is exactly the encoding of `d`.
pub open spec fn decodes_to(b: Seq<u8>, d: AsanaDataView) -> bool {
    db_fits(d) && encode_db(d) == b
}

/// What decoding `b` may give: the database it encodes, when its pose ids are
/// unique; `DuplicatePose` when they are not; `Malformed` when `b` encodes none.
pub open spec fn decode_outcome(b: Seq<u8>, r: Result<AsanaDataView, DecodeError>) -> bool {
    match r {
        Ok(d) => decodes_to(b, d) && keys_unique(d.poses),
        Err(DecodeError::Malformed) => forall|d: AsanaDataView| !#[trigger] decodes_to(b, d),
        Err(DecodeError::DuplicatePose) => exists|d: AsanaDataView|
            #[trigger] decodes_to(b, d) && !keys_unique(d.poses),
    }
}

pub open spec fn result_view(r: Result<AsanaData, DecodeError>) -> Result<AsanaDataView, DecodeError> {
    match r {
        Ok(d) => Ok(d@),
        Err(e) => Err(e),
    }
}

impl AsanaData {
    /// Reads a database from its bytes; see [`decode_outcome`].
    pub fn decode(b: &[u8]) -> (r: Result<AsanaData, DecodeError>)
        ensures
            decode_outcome(b@, result_view(r)),
            r is Ok ==> r->Ok_0.wf(),
    {
        proof {
            lemma_asana_prefix_unique();
            lemma_entry_prefix_unique();
        }
        let (asanas, at1) = match read_asanas(b, 0) {
            Some(x) => x,
            None => {
                assert forall|d: AsanaDataView| !#[trigger] decodes_to(b@, d) by {
                    if decodes_to(b@, d) {
                        assert(b@.subrange(0, b@.len() as int) =~= b@);
                        lemma_bytes_at_concat(
                            b@,
                            0,
                            enc_list(d.asanas, asana_enc()),
                            enc_list(d.poses, entry_enc()),
                        );
                    }
                }
                return Err(DecodeError::Malformed);
            },
        };
        let ghost av = asanas@.map_values(|a: Asana| a@);
        let (poses, at2) = match read_entries(b, at1) {
            Some(x) => x,
            None => {
                assert forall|d: AsanaDataView| !#[trigger] decodes_to(b@, d) by {
                    if decodes_to(b@, d) {
                        assert(b@.subrange(0, b@.len() as int) =~= b@);
                        lemma_bytes_at_concat(
                            b@,
                            0,
                            enc_list(d.asanas, asana_enc()),
                            enc_list(d.poses, entry_enc()),
                        );
                        lemma_list_unique(b@, 0, d.asanas, av, asana_enc(), asana_fit());
                    }
                }
                return Err(DecodeError::Malformed);
            },
        };
        let data = AsanaData { asanas, poses };
        proof {
            lemma_bytes_at_concat(
                b@,
                0,
                enc_list(data@.asanas, asana_enc()),
                enc_list(data@.poses, entry_enc()),
            );
        }
        if at2 != b.len() {
            assert forall|d: AsanaDataView| !#[trigger] decodes_to(b@, d) by {
                if decodes_to(b@, d) {
                    assert(b@.subrange(0, b@.len() as int) =~= b@);
                    lemma_db_unique(b@, 0, d, data@);
                }
            }
            return Err(DecodeError::Malformed);
        }
        assert(encode_db(data@) =~= b@);
        assert(decodes_to(b@, data@));
        if !data.has_unique_pose_ids() {
            return Err(DecodeError::DuplicatePose);
        }
        Ok(data)
    }
}

/// Decoding the bytes of a database whose pose ids are unique gives back that
/// database: the same poses in the same order, and the same joint lists under
/// the same pose ids in the same order.
pub proof fn lemma_round_trip(db: AsanaDataView, r: Result<AsanaDataView, DecodeError>)
    requires
        db_fits(db),
        keys_unique(db.poses),
        decode_outcome(encode_db(db), r),
    ensures
        r == Ok::<AsanaDataView, DecodeError>(db),
{
    let b = encode_db(db);
    assert(b.subrange(0, b.len() as int) =~= b);
    assert(decodes_to(b, db));
    match r {
        Ok(d) => {
            lemma_db_unique(b, 0, d, db);
        },
        Err(DecodeError::Malformed) => {},
        Err(DecodeError::DuplicatePose) => {
            let d = choose|d: AsanaDataView| #[trigger] decodes_to(b, d) && !keys_unique(d.poses);
            lemma_db_unique(b, 0, d, db);
        },
    }
}

/// The bytes of a database with their last byte cut off encode no database:
/// decoding them always fails as malformed.
pub proof fn lemma_truncated(db: AsanaDataView, r: Result<AsanaDataView, DecodeError>)
    requires
        db_fits(db),
        decode_outcome(encode_db(db).drop_last(), r),
    ensures
        r == Err::<AsanaDataView, DecodeError>(DecodeError::Malformed),
{
    let full = encode_db(db);
    lemma_le_bytes_len(db.asanas.len(), 8);
    assert(full.len() >= 8);
    let t = full.drop_last();
    assert(full.subrange(0, full.len() as int) =~= full);
    assert forall|d: AsanaDataView| !#[trigger] decodes_to(t, d) by {
        if decodes_to(t, d) {
            assert(full.subrange(0, t.len() as int) =~= t);
            lemma_db_unique(full, 0, d, db);
        }
    }
    match r {
        Ok(d) => {
            assert(decodes_to(t, d));
        },
        Err(DecodeError::Malformed) => {},
        Err(DecodeError::DuplicatePose) => {
            let d = choose|d: AsanaDataView| #[trigger] decodes_to(t, d) && !keys_unique(d.poses);
        },
    }
}

} // verus!
