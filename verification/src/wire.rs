//! Big-endian integers on byte sequences.
use vstd::prelude::*;

verus! {

/// The unsigned value of `s` read as a big-endian number.
pub open spec fn be_value(s: Seq<u8>) -> nat
    decreases s.len(),
{
    if s.len() == 0 {
        0
    } else {
        be_value(s.drop_last()) * 256 + s.last() as nat
    }
}

/// The `len` least significant bytes of `v`, most significant first.
pub open spec fn be_bytes(v: nat, len: nat) -> Seq<u8>
    decreases len,
{
    if len == 0 {
        Seq::empty()
    } else {
        be_bytes(v / 256, (len - 1) as nat).push((v % 256) as u8)
    }
}

/// Two to the power `8 * len`: the number of values that `len` bytes hold.
pub open spec fn byte_range(len: nat) -> nat
    decreases len,
{
    if len == 0 {
        1
    } else {
        256 * byte_range((len - 1) as nat)
    }
}

/// Four bytes hold the `u32` values.
pub proof fn lemma_byte_range_4()
    ensures
        byte_range(4) == 0x1_0000_0000,
{
    reveal_with_fuel(byte_range, 5);
}

/// `be_bytes` writes exactly `len` bytes.
pub proof fn lemma_be_bytes_len(v: nat, len: nat)
    ensures
        be_bytes(v, len).len() == len,
    decreases len,
{
    if len > 0 {
        lemma_be_bytes_len(v / 256, (len - 1) as nat);
    }
}

/// Reading back what `be_bytes` wrote gives the value, when it fits.
pub proof fn lemma_be_roundtrip(v: nat, len: nat)
    requires
        v < byte_range(len),
    ensures
        be_value(be_bytes(v, len)) == v,
    decreases len,
{
    if len > 0 {
        let prev = (len - 1) as nat;
        assert(v / 256 < byte_range(prev)) by (nonlinear_arith)
            requires
                v < 256 * byte_range(prev),
        ;
        lemma_be_roundtrip(v / 256, prev);
        let s = be_bytes(v, len);
        assert(s.drop_last() =~= be_bytes(v / 256, prev));
        assert(v == (v / 256) * 256 + v % 256) by (nonlinear_arith);
    }
}

/// A big-endian value read from `len` bytes is below `byte_range(len)`.
pub proof fn lemma_be_value_bound(s: Seq<u8>)
    ensures
        be_value(s) < byte_range(s.len()),
    decreases s.len(),
{
    if s.len() > 0 {
        lemma_be_value_bound(s.drop_last());
        let p = be_value(s.drop_last());
        let r = byte_range((s.len() - 1) as nat);
        let b = s.last() as nat;
        assert(p * 256 + b < 256 * r) by (nonlinear_arith)
            requires
                p < r,
                b < 256,
        ;
    }
}

/// Writing back what was read from `s` gives `s`.
pub proof fn lemma_be_bytes_of_value(s: Seq<u8>)
    ensures
        be_bytes(be_value(s), s.len()) == s,
    decreases s.len(),
{
    if s.len() > 0 {
        let p = be_value(s.drop_last());
        let b = s.last() as nat;
        lemma_be_bytes_of_value(s.drop_last());
        assert((p * 256 + b) / 256 == p && (p * 256 + b) % 256 == b) by (nonlinear_arith)
            requires
                b < 256,
        ;
        assert(be_bytes(be_value(s), s.len()) =~= s);
    }
}

/// The big-endian `u32` stored at `s[pos..pos + 4]`.
pub fn read_u32_be(s: &[u8], pos: usize) -> (v: u32)
    requires
        pos + 4 <= s@.len(),
    ensures
        v == be_value(s@.subrange(pos as int, pos + 4)),
{
    let b0 = s[pos] as u32;
    let b1 = s[pos + 1] as u32;
    let b2 = s[pos + 2] as u32;
    let b3 = s[pos + 3] as u32;
    let ghost sub = s@.subrange(pos as int, pos + 4);
    assert(sub.drop_last().drop_last().drop_last().drop_last() =~= Seq::<u8>::empty());
    assert(be_value(sub) == ((b0 * 256 + b1) * 256 + b2) * 256 + b3) by {
        assert(sub.drop_last().drop_last().drop_last() =~= seq![s@[pos as int]]);
        assert(sub.drop_last().drop_last() =~= seq![s@[pos as int], s@[pos + 1]]);
        assert(sub.drop_last() =~= seq![s@[pos as int], s@[pos + 1], s@[pos + 2]]);
        reveal_with_fuel(be_value, 5);
    }
    ((b0 * 256 + b1) * 256 + b2) * 256 + b3
}

/// Appends the four big-endian bytes of `v` to `buf`.
pub fn push_u32_be(buf: &mut Vec<u8>, v: u32)
    ensures
        final(buf)@ == old(buf)@ + be_bytes(v as nat, 4),
{
    let b0 = (v / 16777216) as u8;
    let b1 = ((v / 65536) % 256) as u8;
    let b2 = ((v / 256) % 256) as u8;
    let b3 = (v % 256) as u8;
    buf.push(b0);
    buf.push(b1);
    buf.push(b2);
    buf.push(b3);
    proof {
        let w = v as nat;
        assert(w / 256 / 256 == w / 65536) by (nonlinear_arith);
        assert(w / 65536 / 256 == w / 16777216) by (nonlinear_arith);
        assert(w / 16777216 / 256 == 0) by (nonlinear_arith)
            requires
                w < 0x1_0000_0000,
        ;
        assert(w / 16777216 % 256 == w / 16777216) by (nonlinear_arith)
            requires
                w < 0x1_0000_0000,
        ;
        assert(be_bytes(w, 4) =~= seq![b0, b1, b2, b3]) by {
            reveal_with_fuel(be_bytes, 5);
        }
    }
}

} // verus!
