//! The marshaling convention for values that cross the host/guest boundary
//! through linear memory.  No pointers are shared: the guest's address space
//! is a byte array, and a compound value is reached through a
//! `(offset, length)` pair into it.  A producer allocates a fresh region,
//! writes the raw bytes, and hands the pair over; the consumer reads the
//! region back.  Multi-word results go through a small reserved return area
//! holding such a pair.

use vstd::prelude::*;

use crate::value::RecordVal;
use crate::value::Scalar;
use crate::value::SpecField;
use crate::value::SpecRecord;
use crate::value::SpecScalar;

verus! {

/// One guest instance's linear memory: a byte array addressed by offset,
/// grown by allocation, never shared between instances.
pub struct Mem {
    pub data: Vec<u8>,
}

impl View for Mem {
    type V = Seq<u8>;

    open spec fn view(&self) -> Seq<u8> {
        self.data@
    }
}

impl Mem {
    /// A fresh, empty linear memory.
    pub fn new() -> (m: Mem)
        ensures
            m@ == Seq::<u8>::empty(),
    {
        Mem { data: Vec::new() }
    }

    /// Current size in bytes.
    pub fn size(&self) -> (n: usize)
        ensures
            n == self@.len(),
    {
        self.data.len()
    }
}

/// The little-endian bytes of a 32-bit word.
pub open spec fn spec_le32(v: int) -> Seq<u8> {
    seq![
        (v % 256) as u8,
        ((v / 256) % 256) as u8,
        ((v / 65536) % 256) as u8,
        ((v / 16777216) % 256) as u8,
    ]
}

/// The 32-bit word held little-endian at `off`.
pub open spec fn spec_rd32(mem: Seq<u8>, off: int) -> int {
    mem[off] + 256 * mem[off + 1] + 65536 * mem[off + 2] + 16777216 * mem[off + 3]
}

/// Reading back the four bytes of a word gives the word.
proof fn lemma_le32_rd(mem: Seq<u8>, off: int, v: int)
    requires
        0 <= v < 4294967296,
        0 <= off,
        off + 4 <= mem.len(),
        mem.subrange(off, off + 4) == spec_le32(v),
    ensures
        spec_rd32(mem, off) == v,
{
    assert(mem[off] == spec_le32(v)[0]) by {
        assert(mem.subrange(off, off + 4)[0] == mem[off]);
    }
    assert(mem[off + 1] == spec_le32(v)[1]) by {
        assert(mem.subrange(off, off + 4)[1] == mem[off + 1]);
    }
    assert(mem[off + 2] == spec_le32(v)[2]) by {
        assert(mem.subrange(off, off + 4)[2] == mem[off + 2]);
    }
    assert(mem[off + 3] == spec_le32(v)[3]) by {
        assert(mem.subrange(off, off + 4)[3] == mem[off + 3]);
    }
}

/// Append the little-endian bytes of `v`.
fn push_le32(m: &mut Mem, v: u32)
    ensures
        final(m)@ == old(m)@ + spec_le32(v as int),
{
    let b0 = (v % 256) as u8;
    let b1 = ((v / 256) % 256) as u8;
    let b2 = ((v / 65536) % 256) as u8;
    let b3 = ((v / 16777216) % 256) as u8;
    m.data.push(b0);
    m.data.push(b1);
    m.data.push(b2);
    m.data.push(b3);
    proof {
        assert(m@ =~= old(m)@ + spec_le32(v as int));
    }
}

/// Read the 32-bit word held little-endian at `off`.
fn read_u32_at(m: &Mem, off: usize) -> (v: u32)
    requires
        off + 4 <= m@.len(),
    ensures
        v as int == spec_rd32(m@, off as int),
{
    let msize = m.data.len();
    assert(off + 4 <= msize);
    let b0 = m.data[off] as u32;
    let b1 = m.data[off + 1] as u32;
    let b2 = m.data[off + 2] as u32;
    let b3 = m.data[off + 3] as u32;
    b0 + 256 * b1 + 65536 * b2 + 16777216 * b3
}

/// Write a fresh buffer holding the bytes of one string (or one `list<u8>`
/// payload: the layout is the same) and hand over its `(offset, length)`
/// pair.  The producer gives the region up: it is the consumer's to read.
pub fn encode_string(m: &mut Mem, s: &[u8]) -> (r: (u32, u32))
    requires
        old(m)@.len() + s@.len() <= u32::MAX,
    ensures
        final(m)@ == old(m)@ + s@,
        r.0 == old(m)@.len(),
        r.1 == s@.len(),
        final(m)@.subrange(r.0 as int, r.0 + r.1) == s@,
{
    let off = m.data.len();
    let n = s.len();
    let mut k: usize = 0;
    while k < n
        invariant
            k <= n,
            n == s@.len(),
            m@ == old(m)@ + s@.take(k as int),
        decreases n - k,
    {
        m.data.push(s[k]);
        proof {
            assert(s@.take(k + 1) =~= s@.take(k as int).push(s@[k as int]));
            assert(old(m)@ + s@.take(k as int).push(s@[k as int]) =~= (old(m)@ + s@.take(
                k as int,
            )).push(s@[k as int]));
        }
        k = k + 1;
    }
    proof {
        assert(s@.take(n as int) =~= s@);
        assert((old(m)@ + s@).subrange(off as int, off + n) =~= s@);
    }
    (off as u32, n as u32)
}

/// Read a string (or byte payload) region back out of linear memory.
pub fn decode_string(m: &Mem, off: u32, len: u32) -> (r: Vec<u8>)
    requires
        off + len <= m@.len(),
    ensures
        r@ == m@.subrange(off as int, off + len),
{
    let mut out: Vec<u8> = Vec::new();
    let start = off as usize;
    let n = len as usize;
    let msize = m.size();
    let mut k: usize = 0;
    while k < n
        invariant
            k <= n,
            msize == m@.len(),
            start + n <= msize,
            out@ == m@.subrange(start as int, start + k),
        decreases n - k,
    {
        out.push(m.data[start + k]);
        proof {
            assert(m@.subrange(start as int, start + k + 1) =~= m@.subrange(
                start as int,
                start + k,
            ).push(m@[start + k]));
        }
        k = k + 1;
    }
    out
}

/// The little-endian bytes of a 64-bit word.
pub open spec fn spec_le64(v: int) -> Seq<u8> {
    seq![
        (v % 256) as u8,
        ((v / 256) % 256) as u8,
        ((v / 65536) % 256) as u8,
        ((v / 16777216) % 256) as u8,
        ((v / 4294967296) % 256) as u8,
        ((v / 1099511627776) % 256) as u8,
        ((v / 281474976710656) % 256) as u8,
        ((v / 72057594037927936) % 256) as u8,
    ]
}

/// The 64-bit word held little-endian at `off`.
pub open spec fn spec_rd64(mem: Seq<u8>, off: int) -> int {
    mem[off] + 256 * mem[off + 1] + 65536 * mem[off + 2] + 16777216 * mem[off + 3] + 4294967296
        * mem[off + 4] + 1099511627776 * mem[off + 5] + 281474976710656 * mem[off + 6]
        + 72057594037927936 * mem[off + 7]
}

/// A 64-bit word decomposes into its eight base-256 digits.
proof fn lemma_base256_digits(v: int)
    requires
        0 <= v < 18446744073709551616,
    ensures
        v == (v % 256) + 256 * ((v / 256) % 256) + 65536 * ((v / 65536) % 256) + 16777216 * ((v
            / 16777216) % 256) + 4294967296 * ((v / 4294967296) % 256) + 1099511627776 * ((v
            / 1099511627776) % 256) + 281474976710656 * ((v / 281474976710656) % 256)
            + 72057594037927936 * ((v / 72057594037927936) % 256),
{
    let q1 = v / 256;
    let q2 = v / 65536;
    let q3 = v / 16777216;
    let q4 = v / 4294967296;
    let q5 = v / 1099511627776;
    let q6 = v / 281474976710656;
    let q7 = v / 72057594037927936;
    vstd::arithmetic::div_mod::lemma_div_denominator(v, 256, 256);
    vstd::arithmetic::div_mod::lemma_div_denominator(v, 65536, 256);
    vstd::arithmetic::div_mod::lemma_div_denominator(v, 16777216, 256);
    vstd::arithmetic::div_mod::lemma_div_denominator(v, 4294967296, 256);
    vstd::arithmetic::div_mod::lemma_div_denominator(v, 1099511627776, 256);
    vstd::arithmetic::div_mod::lemma_div_denominator(v, 281474976710656, 256);
    assert(q2 == q1 / 256);
    assert(q3 == q2 / 256);
    assert(q4 == q3 / 256);
    assert(q5 == q4 / 256);
    assert(q6 == q5 / 256);
    assert(q7 == q6 / 256);
    assert(v == (v % 256) + 256 * q1);
    assert(q1 == (q1 % 256) + 256 * q2);
    assert(q2 == (q2 % 256) + 256 * q3);
    assert(q3 == (q3 % 256) + 256 * q4);
    assert(q4 == (q4 % 256) + 256 * q5);
    assert(q5 == (q5 % 256) + 256 * q6);
    assert(q6 == (q6 % 256) + 256 * q7);
    assert(q7 < 256);
    assert(q7 % 256 == q7);
}

/// Reading back the eight bytes of a word gives the word.
proof fn lemma_le64_rd(mem: Seq<u8>, off: int, v: int)
    requires
        0 <= v < 18446744073709551616,
        0 <= off,
        off + 8 <= mem.len(),
        mem.subrange(off, off + 8) == spec_le64(v),
    ensures
        spec_rd64(mem, off) == v,
{
    assert forall|k: int| 0 <= k < 8 implies mem[off + k] == spec_le64(v)[k] by {
        assert(mem.subrange(off, off + 8)[k] == mem[off + k]);
    }
    lemma_base256_digits(v);
}

/// Append the little-endian bytes of `v`.
fn push_le64(m: &mut Mem, v: u64)
    ensures
        final(m)@ == old(m)@ + spec_le64(v as int),
{
    let b0 = (v % 256) as u8;
    let b1 = ((v / 256) % 256) as u8;
    let b2 = ((v / 65536) % 256) as u8;
    let b3 = ((v / 16777216) % 256) as u8;
    let b4 = ((v / 4294967296) % 256) as u8;
    let b5 = ((v / 1099511627776) % 256) as u8;
    let b6 = ((v / 281474976710656) % 256) as u8;
    let b7 = ((v / 72057594037927936) % 256) as u8;
    m.data.push(b0);
    m.data.push(b1);
    m.data.push(b2);
    m.data.push(b3);
    m.data.push(b4);
    m.data.push(b5);
    m.data.push(b6);
    m.data.push(b7);
    proof {
        assert(m@ =~= old(m)@ + spec_le64(v as int));
    }
}

/// Read the 64-bit word held little-endian at `off`.
fn read_u64_at(m: &Mem, off: usize) -> (v: u64)
    requires
        off + 8 <= m@.len(),
    ensures
        v as int == spec_rd64(m@, off as int),
{
    let msize = m.data.len();
    assert(off + 8 <= msize);
    let b0 = m.data[off] as u64;
    let b1 = m.data[off + 1] as u64;
    let b2 = m.data[off + 2] as u64;
    let b3 = m.data[off + 3] as u64;
    let b4 = m.data[off + 4] as u64;
    let b5 = m.data[off + 5] as u64;
    let b6 = m.data[off + 6] as u64;
    let b7 = m.data[off + 7] as u64;
    b0 + 256 * b1 + 65536 * b2 + 16777216 * b3 + 4294967296 * b4 + 1099511627776 * b5
        + 281474976710656 * b6 + 72057594037927936 * b7
}

/// The unsigned 64-bit image of a signed 64-bit value.
pub open spec fn i64_bits(x: int) -> int {
    if x < 0 {
        x + 18446744073709551616
    } else {
        x
    }
}

/// The signed 64-bit value of an unsigned 64-bit image.
pub open spec fn bits_i64(v: int) -> int {
    if v >= 9223372036854775808 {
        v - 18446744073709551616
    } else {
        v
    }
}

/// The list region for fixed-stride 32-bit elements: each element's four
/// little-endian bytes, one after the other.
pub open spec fn spec_list_bytes(xs: Seq<int>) -> Seq<u8>
    decreases xs.len(),
{
    if xs.len() == 0 {
        Seq::empty()
    } else {
        spec_le32(xs[0]) + spec_list_bytes(xs.drop_first())
    }
}

/// The unsigned 32-bit image of a signed 32-bit value.
pub open spec fn i32_bits(x: int) -> int {
    if x < 0 {
        x + 4294967296
    } else {
        x
    }
}

/// The signed 32-bit value of an unsigned 32-bit image.
pub open spec fn bits_i32(v: int) -> int {
    if v >= 2147483648 {
        v - 4294967296
    } else {
        v
    }
}

proof fn lemma_list_bytes_snoc(xs: Seq<int>, x: int)
    ensures
        spec_list_bytes(xs.push(x)) == spec_list_bytes(xs) + spec_le32(x),
    decreases xs.len(),
{
    if xs.len() == 0 {
        assert(xs.push(x)[0] == x);
        assert(xs.push(x).drop_first() =~= Seq::<int>::empty());
        assert(spec_list_bytes(Seq::<int>::empty()) =~= Seq::<u8>::empty());
        assert(spec_list_bytes(xs.push(x)) == spec_le32(x) + spec_list_bytes(
            Seq::<int>::empty(),
        ));
        assert(spec_le32(x) + Seq::<u8>::empty() =~= spec_le32(x));
        assert(Seq::<u8>::empty() + spec_le32(x) =~= spec_le32(x));
    } else {
        lemma_list_bytes_snoc(xs.drop_first(), x);
        assert(xs.push(x).drop_first() =~= xs.drop_first().push(x));
        assert(xs.push(x)[0] == xs[0]);
        assert(spec_list_bytes(xs.push(x)) == spec_le32(xs[0]) + spec_list_bytes(
            xs.drop_first().push(x),
        ));
        assert(spec_le32(xs[0]) + (spec_list_bytes(xs.drop_first()) + spec_le32(x)) =~= (spec_le32(
            xs[0],
        ) + spec_list_bytes(xs.drop_first())) + spec_le32(x));
        assert(spec_le32(xs[0]) + spec_list_bytes(xs.drop_first()) == spec_list_bytes(xs));
    }
}

/// Write a fresh contiguous buffer holding a list of 32-bit primitives,
/// stride four, and hand over `(base offset, element count)`.
pub fn encode_list(m: &mut Mem, xs: &Vec<i32>) -> (r: (u32, u32))
    requires
        old(m)@.len() + 4 * xs@.len() <= u32::MAX,
    ensures
        r.0 == old(m)@.len(),
        r.1 == xs@.len(),
        final(m)@ == old(m)@ + spec_list_bytes(xs@.map_values(|x: i32| i32_bits(x as int))),
        final(m)@.len() == old(m)@.len() + 4 * xs@.len(),
{
    let ghost bits = xs@.map_values(|x: i32| i32_bits(x as int));
    let off = m.data.len();
    let n = xs.len();
    let mut k: usize = 0;
    proof {
        assert(spec_list_bytes(bits.take(0)) =~= Seq::<u8>::empty());
        assert(m@ =~= old(m)@ + spec_list_bytes(bits.take(0)));
        assert forall|t: int| 0 <= t < n implies spec_list_bytes(bits.take(t + 1))
            =~= spec_list_bytes(bits.take(t)) + spec_le32(bits[t]) by {
            lemma_list_bytes_snoc(bits.take(t), bits[t]);
            assert(bits.take(t + 1) =~= bits.take(t).push(bits[t]));
        }
        assert forall|t: int| 0 <= t <= n implies spec_list_bytes(bits.take(t)).len() == 4 * t by {
            lemma_list_bytes_len(bits.take(t));
        }
    }
    while k < n
        invariant
            k <= n,
            n == xs@.len(),
            bits == xs@.map_values(|x: i32| i32_bits(x as int)),
            m@ == old(m)@ + spec_list_bytes(bits.take(k as int)),
            spec_list_bytes(bits.take(k as int)).len() == 4 * k,
            old(m)@.len() + 4 * n <= u32::MAX,
            forall|t: int|
                0 <= t < n ==> spec_list_bytes(bits.take(t + 1)) == spec_list_bytes(bits.take(t))
                    + spec_le32(bits[t]),
            forall|t: int| 0 <= t <= n ==> spec_list_bytes(bits.take(t)).len() == 4 * t,
        decreases n - k,
    {
        let x = xs[k];
        let u: u32 = if x >= 0 {
            x as u32
        } else {
            let y: i64 = (x as i64) + 4294967296i64;
            y as u32
        };
        assert(u as int == i32_bits(x as int));
        assert(u as int == bits[k as int]);
        push_le32(m, u);
        k = k + 1;
    }
    proof {
        assert(bits.take(n as int) =~= bits);
    }
    (off as u32, n as u32)
}

proof fn lemma_list_bytes_len(xs: Seq<int>)
    ensures
        spec_list_bytes(xs).len() == 4 * xs.len(),
    decreases xs.len(),
{
    if xs.len() > 0 {
        lemma_list_bytes_len(xs.drop_first());
    }
}

/// The elements held by a list region written by `encode_list`.
pub open spec fn spec_decode_list(mem: Seq<u8>, off: int, count: int) -> Seq<int>
    decreases count,
{
    if count <= 0 {
        Seq::empty()
    } else {
        seq![bits_i32(spec_rd32(mem, off))] + spec_decode_list(mem, off + 4, count - 1)
    }
}

/// Read a list of 32-bit primitives back out of linear memory.
pub fn decode_list(m: &Mem, off: u32, count: u32) -> (r: Vec<i32>)
    requires
        off + 4 * count <= m@.len(),
    ensures
        r@.map_values(|x: i32| x as int) == spec_decode_list(m@, off as int, count as int),
{
    let mut out: Vec<i32> = Vec::new();
    let n = count as usize;
    let msize = m.size();
    let mut k: usize = 0;
    while k < n
        invariant
            k <= n,
            msize == m@.len(),
            off + 4 * n <= msize,
            out@.map_values(|x: i32| x as int) == spec_decode_list(m@, off as int, k as int),
        decreases n - k,
    {
        let v = read_u32_at(m, off as usize + 4 * k);
        let x: i32 = if v <= 2147483647u32 {
            v as i32
        } else {
            let d: u32 = 4294967295u32 - v;
            -(d as i32) - 1
        };
        assert(x as int == bits_i32(v as int));
        let ghost pre = out@.map_values(|x0: i32| x0 as int);
        out.push(x);
        proof {
            assert(out@.map_values(|x0: i32| x0 as int) =~= pre.push(x as int));
            lemma_decode_list_snoc(m@, off as int, k as int);
            assert(pre.push(x as int) =~= pre + seq![x as int]);
        }
        k = k + 1;
    }
    out
}

/// The two unfoldings of a list region agree.
proof fn lemma_decode_list_snoc(mem: Seq<u8>, off: int, k: int)
    requires
        k >= 0,
    ensures
        spec_decode_list(mem, off, k + 1) == spec_decode_list(mem, off, k) + seq![
            bits_i32(spec_rd32(mem, off + 4 * k)),
        ],
    decreases k,
{
    if k == 0 {
        assert(spec_decode_list(mem, off + 4, 0) =~= Seq::<int>::empty());
        assert(spec_decode_list(mem, off, 1) == seq![bits_i32(spec_rd32(mem, off))]
            + spec_decode_list(mem, off + 4, 0));
        assert(seq![bits_i32(spec_rd32(mem, off))] + Seq::<int>::empty() =~= seq![
            bits_i32(spec_rd32(mem, off)),
        ]);
        assert(spec_decode_list(mem, off, 0) =~= Seq::<int>::empty());
        assert(Seq::<int>::empty() + seq![bits_i32(spec_rd32(mem, off))] =~= seq![
            bits_i32(spec_rd32(mem, off)),
        ]);
    } else {
        lemma_decode_list_snoc(mem, off + 4, k - 1);
        assert(off + 4 + 4 * (k - 1) == off + 4 * k);
        assert(spec_decode_list(mem, off, k + 1) == seq![bits_i32(spec_rd32(mem, off))]
            + spec_decode_list(mem, off + 4, k));
        assert(spec_decode_list(mem, off, k) == seq![bits_i32(spec_rd32(mem, off))]
            + spec_decode_list(mem, off + 4, k - 1));
        assert(seq![bits_i32(spec_rd32(mem, off))] + (spec_decode_list(mem, off + 4, k - 1) + seq![
            bits_i32(spec_rd32(mem, off + 4 * k)),
        ]) =~= (seq![bits_i32(spec_rd32(mem, off))] + spec_decode_list(mem, off + 4, k - 1)) + seq![
            bits_i32(spec_rd32(mem, off + 4 * k)),
        ]);
    }
}

/// The layout kind of one record field: an inline machine word, or a
/// pointer/length pair to a separately written buffer.
#[derive(PartialEq, Eq, Structural, Clone, Copy, Debug)]
pub enum FieldKind {
    Prim,
    Ptr,
}

/// The layout kind a scalar travels under: integers inline, strings through
/// a pointer/length pair.
pub open spec fn kind_of(v: SpecScalar) -> FieldKind {
    match v {
        SpecScalar::Int(_) => FieldKind::Prim,
        SpecScalar::Str(_) => FieldKind::Ptr,
    }
}

/// The concatenated buffer contents of a record's string fields, in field
/// order: what the producer writes before the record block itself.
pub open spec fn spec_strs_cat(vs: Seq<SpecScalar>) -> Seq<u8>
    decreases vs.len(),
{
    if vs.len() == 0 {
        Seq::empty()
    } else {
        let head: Seq<u8> = match vs[0] {
            SpecScalar::Int(_) => Seq::empty(),
            SpecScalar::Str(b) => b,
        };
        head + spec_strs_cat(vs.drop_first())
    }
}

proof fn lemma_strs_cat_snoc(vs: Seq<SpecScalar>, v: SpecScalar)
    ensures
        spec_strs_cat(vs.push(v)) == spec_strs_cat(vs) + (match v {
            SpecScalar::Int(_) => Seq::<u8>::empty(),
            SpecScalar::Str(b) => b,
        }),
    decreases vs.len(),
{
    let tail: Seq<u8> = match v {
        SpecScalar::Int(_) => Seq::empty(),
        SpecScalar::Str(b) => b,
    };
    if vs.len() == 0 {
        assert(vs.push(v)[0] == v);
        assert(vs.push(v).drop_first() =~= Seq::<SpecScalar>::empty());
        assert(spec_strs_cat(Seq::<SpecScalar>::empty()) =~= Seq::<u8>::empty());
        assert(spec_strs_cat(vs.push(v)) =~= spec_strs_cat(vs) + tail);
    } else {
        lemma_strs_cat_snoc(vs.drop_first(), v);
        assert(vs.push(v).drop_first() =~= vs.drop_first().push(v));
        assert(vs.push(v)[0] == vs[0]);
        let head: Seq<u8> = match vs[0] {
            SpecScalar::Int(_) => Seq::empty(),
            SpecScalar::Str(b) => b,
        };
        assert(spec_strs_cat(vs.push(v)) == head + (spec_strs_cat(vs.drop_first()) + tail));
        assert(head + (spec_strs_cat(vs.drop_first()) + tail) =~= (head + spec_strs_cat(
            vs.drop_first(),
        )) + tail);
    }
}

/// Total length of a record's string buffers.
pub open spec fn spec_strs_len(vs: Seq<SpecScalar>) -> int {
    spec_strs_cat(vs).len() as int
}

/// The eight-byte block chunk of one field: an inline little-endian word for
/// an integer, or the field's `(offset, length)` pair.
pub open spec fn spec_field_chunk(v: SpecScalar, p: (u32, u32)) -> Seq<u8> {
    match v {
        SpecScalar::Int(i) => spec_le64(i64_bits(i)),
        SpecScalar::Str(_) => spec_le32(p.0 as int) + spec_le32(p.1 as int),
    }
}

/// The record block: every field's chunk, in declaration order.
pub open spec fn spec_fields_bytes(vs: Seq<SpecScalar>, ps: Seq<(u32, u32)>) -> Seq<u8>
    decreases vs.len(),
{
    if vs.len() == 0 {
        Seq::empty()
    } else {
        spec_field_chunk(vs[0], ps[0]) + spec_fields_bytes(vs.drop_first(), ps.drop_first())
    }
}

proof fn lemma_fields_bytes_snoc(vs: Seq<SpecScalar>, ps: Seq<(u32, u32)>, v: SpecScalar, p: (
    u32,
    u32,
))
    requires
        vs.len() == ps.len(),
    ensures
        spec_fields_bytes(vs.push(v), ps.push(p)) == spec_fields_bytes(vs, ps) + spec_field_chunk(
            v,
            p,
        ),
    decreases vs.len(),
{
    if vs.len() == 0 {
        assert(vs.push(v)[0] == v && ps.push(p)[0] == p);
        assert(vs.push(v).drop_first() =~= Seq::<SpecScalar>::empty());
        assert(ps.push(p).drop_first() =~= Seq::<(u32, u32)>::empty());
        assert(spec_fields_bytes(Seq::<SpecScalar>::empty(), Seq::<(u32, u32)>::empty())
            =~= Seq::<u8>::empty());
        assert(spec_fields_bytes(vs.push(v), ps.push(p)) =~= spec_fields_bytes(vs, ps)
            + spec_field_chunk(v, p));
    } else {
        lemma_fields_bytes_snoc(vs.drop_first(), ps.drop_first(), v, p);
        assert(vs.push(v).drop_first() =~= vs.drop_first().push(v));
        assert(ps.push(p).drop_first() =~= ps.drop_first().push(p));
        assert(vs.push(v)[0] == vs[0] && ps.push(p)[0] == ps[0]);
        assert(spec_fields_bytes(vs.push(v), ps.push(p)) == spec_field_chunk(vs[0], ps[0]) + (
        spec_fields_bytes(vs.drop_first(), ps.drop_first()) + spec_field_chunk(v, p)));
        assert(spec_field_chunk(vs[0], ps[0]) + (spec_fields_bytes(
            vs.drop_first(),
            ps.drop_first(),
        ) + spec_field_chunk(v, p)) =~= (spec_field_chunk(vs[0], ps[0]) + spec_fields_bytes(
            vs.drop_first(),
            ps.drop_first(),
        )) + spec_field_chunk(v, p));
    }
}

proof fn lemma_fields_bytes_len(vs: Seq<SpecScalar>, ps: Seq<(u32, u32)>)
    requires
        vs.len() == ps.len(),
    ensures
        spec_fields_bytes(vs, ps).len() == 8 * vs.len(),
    decreases vs.len(),
{
    if vs.len() > 0 {
        lemma_fields_bytes_len(vs.drop_first(), ps.drop_first());
    }
}

/// Chunk `k` of a record block stands at offset `8 * k`.
proof fn lemma_fields_bytes_at(vs: Seq<SpecScalar>, ps: Seq<(u32, u32)>, k: int)
    requires
        vs.len() == ps.len(),
        0 <= k < vs.len(),
    ensures
        spec_fields_bytes(vs, ps).subrange(8 * k, 8 * k + 8) == spec_field_chunk(vs[k], ps[k]),
    decreases k,
{
    lemma_fields_bytes_len(vs, ps);
    lemma_fields_bytes_len(vs.drop_first(), ps.drop_first());
    let whole = spec_fields_bytes(vs, ps);
    let head = spec_field_chunk(vs[0], ps[0]);
    let rest = spec_fields_bytes(vs.drop_first(), ps.drop_first());
    assert(whole == head + rest);
    if k == 0 {
        assert(whole.subrange(0, 8) =~= head);
    } else {
        lemma_fields_bytes_at(vs.drop_first(), ps.drop_first(), k - 1);
        assert forall|t: int| 0 <= t < 8 implies #[trigger] whole.subrange(8 * k, 8 * k + 8)[t]
            == rest.subrange(8 * (k - 1), 8 * (k - 1) + 8)[t] by {
            assert(whole.subrange(8 * k, 8 * k + 8)[t] == whole[8 * k + t]);
            assert(whole[8 * k + t] == rest[8 * (k - 1) + t]);
            assert(rest.subrange(8 * (k - 1), 8 * (k - 1) + 8)[t] == rest[8 * (k - 1) + t]);
        }
        assert(whole.subrange(8 * k, 8 * k + 8) =~= rest.subrange(8 * (k - 1), 8 * (k - 1) + 8));
    }
}

/// What decoding asks of one field: its chunk in the block, and for a
/// pointer field a buffer that really holds the string's bytes.
spec fn field_fact(mem: Seq<u8>, v: SpecScalar, p: (u32, u32), o: int) -> bool {
    match v {
        SpecScalar::Int(i) => {
            &&& i64::MIN <= i <= i64::MAX
            &&& 0 <= o
            &&& o + 8 <= mem.len()
            &&& mem.subrange(o, o + 8) == spec_le64(i64_bits(i))
        },
        SpecScalar::Str(b) => {
            &&& 0 <= o
            &&& o + 8 <= mem.len()
            &&& mem.subrange(o, o + 8) == spec_le32(p.0 as int) + spec_le32(p.1 as int)
            &&& p.0 + p.1 <= mem.len()
            &&& p.1 == b.len()
            &&& mem.subrange(p.0 as int, p.0 + p.1) == b
        },
    }
}

/// The fields a record block holds, read back kind by kind: an inline word
/// becomes an integer, a pointer/length pair becomes the string it points
/// at; a pair that runs outside the memory fails the whole record.
pub open spec fn spec_decode_record(mem: Seq<u8>, kinds: Seq<FieldKind>, off: int) -> Option<
    Seq<SpecScalar>,
>
    decreases kinds.len(),
{
    if kinds.len() == 0 {
        Some(Seq::empty())
    } else if !(0 <= off && off + 8 <= mem.len()) {
        None
    } else {
        let first: Option<SpecScalar> = match kinds[0] {
            FieldKind::Prim => Some(SpecScalar::Int(bits_i64(spec_rd64(mem, off)))),
            FieldKind::Ptr => {
                let a = spec_rd32(mem, off);
                let b = spec_rd32(mem, off + 4);
                if a + b <= mem.len() {
                    Some(SpecScalar::Str(mem.subrange(a, a + b)))
                } else {
                    None
                }
            },
        };
        match first {
            None => None,
            Some(x) => match spec_decode_record(mem, kinds.drop_first(), off + 8) {
                None => None,
                Some(rest) => Some(seq![x] + rest),
            },
        }
    }
}

/// A block whose every field satisfies its `field_fact` decodes to exactly
/// the encoded fields.
proof fn lemma_decode_of_block(mem: Seq<u8>, vs: Seq<SpecScalar>, ps: Seq<(u32, u32)>, block: int)
    requires
        ps.len() == vs.len(),
        0 <= block,
        block + 8 * vs.len() <= mem.len(),
        forall|k: int| 0 <= k < vs.len() ==> field_fact(mem, #[trigger] vs[k], ps[k], block + 8 * k),
    ensures
        spec_decode_record(mem, vs.map_values(|v: SpecScalar| kind_of(v)), block) == Some(vs),
    decreases vs.len(),
{
    let kinds = vs.map_values(|v: SpecScalar| kind_of(v));
    if vs.len() == 0 {
        assert(kinds =~= Seq::<FieldKind>::empty());
        assert(Seq::<SpecScalar>::empty() =~= vs);
    } else {
        assert(field_fact(mem, vs[0], ps[0], block));
        match vs[0] {
            SpecScalar::Int(i) => {
                lemma_le64_rd(mem, block, i64_bits(i));
                assert(bits_i64(spec_rd64(mem, block)) == i);
            },
            SpecScalar::Str(b) => {
                let a = ps[0].0 as int;
                let l = ps[0].1 as int;
                let chunk = spec_le32(a) + spec_le32(l);
                assert(mem.subrange(block, block + 8) == chunk);
                assert forall|t: int| 0 <= t < 4 implies mem.subrange(block, block + 4)[t]
                    == spec_le32(a)[t] by {
                    assert(mem.subrange(block, block + 8)[t] == mem[block + t]);
                    assert(mem.subrange(block, block + 4)[t] == mem[block + t]);
                    assert(chunk[t] == spec_le32(a)[t]);
                }
                assert(mem.subrange(block, block + 4) =~= spec_le32(a));
                assert forall|t: int| 0 <= t < 4 implies mem.subrange(block + 4, block + 8)[t]
                    == spec_le32(l)[t] by {
                    assert(mem.subrange(block, block + 8)[4 + t] == mem[block + 4 + t]);
                    assert(mem.subrange(block + 4, block + 8)[t] == mem[block + 4 + t]);
                    assert(chunk[4 + t] == spec_le32(l)[t]);
                }
                assert(mem.subrange(block + 4, block + 8) =~= spec_le32(l));
                lemma_le32_rd(mem, block, a);
                lemma_le32_rd(mem, block + 4, l);
                assert(spec_rd32(mem, block) == a && spec_rd32(mem, block + 4) == l);
                assert(mem.subrange(a, a + l) == b);
            },
        }
        assert forall|k: int| 0 <= k < vs.drop_first().len() implies field_fact(
            mem,
            #[trigger] vs.drop_first()[k],
            ps.drop_first()[k],
            block + 8 + 8 * k,
        ) by {
            assert(vs.drop_first()[k] == vs[k + 1]);
            assert(ps.drop_first()[k] == ps[k + 1]);
            assert(field_fact(mem, vs[k + 1], ps[k + 1], block + 8 * (k + 1)));
        }
        lemma_decode_of_block(mem, vs.drop_first(), ps.drop_first(), block + 8);
        assert(kinds.drop_first() =~= vs.drop_first().map_values(|v: SpecScalar| kind_of(v)));
        assert(kinds[0] == kind_of(vs[0]));
        assert(seq![vs[0]] + vs.drop_first() =~= vs);
    }
}

/// Read the fields of a record block from `k` on.
fn decode_record_from(m: &Mem, kinds: &Vec<FieldKind>, k: usize, off: usize) -> (r: Option<
    Vec<Scalar>,
>)
    requires
        k <= kinds@.len(),
    ensures
        spec_decode_record(m@, kinds@.skip(k as int), off as int) == match r {
            None => None::<Seq<SpecScalar>>,
            Some(vals) => Some(vals@.map_values(|v: Scalar| v@)),
        },
    decreases kinds@.len() - k,
{
    if k == kinds.len() {
        let vals: Vec<Scalar> = Vec::new();
        proof {
            assert(kinds@.skip(k as int) =~= Seq::<FieldKind>::empty());
            assert(vals@.map_values(|v: Scalar| v@) =~= Seq::<SpecScalar>::empty());
        }
        return Some(vals);
    }
    proof {
        assert(kinds@.skip(k as int)[0] == kinds@[k as int]);
        assert(kinds@.skip(k as int).drop_first() =~= kinds@.skip(k + 1));
    }
    let msize = m.size();
    if off > msize || msize - off < 8 {
        return None;
    }
    let first: Scalar = match kinds[k] {
        FieldKind::Prim => {
            let w = read_u64_at(m, off);
            let x: i64 = if w <= 9223372036854775807u64 {
                w as i64
            } else {
                let d: u64 = 18446744073709551615u64 - w;
                -(d as i64) - 1
            };
            assert(x as int == bits_i64(w as int));
            Scalar::Int(x)
        },
        FieldKind::Ptr => {
            let a = read_u32_at(m, off);
            let b = read_u32_at(m, off + 4);
            if (a as u64) + (b as u64) > msize as u64 {
                return None;
            }
            Scalar::Str(decode_string(m, a, b))
        },
    };
    match decode_record_from(m, kinds, k + 1, off + 8) {
        None => None,
        Some(mut vals) => {
            let ghost pre = vals@.map_values(|v: Scalar| v@);
            vals.insert(0, first);
            proof {
                assert(vals@.map_values(|v: Scalar| v@) =~= seq![first@] + pre);
            }
            Some(vals)
        },
    }
}

/// Read a record's fields back out of linear memory, kind by kind.
pub fn decode_record(m: &Mem, kinds: &Vec<FieldKind>, off: u32) -> (r: Option<Vec<Scalar>>)
    ensures
        spec_decode_record(m@, kinds@, off as int) == match r {
            None => None::<Seq<SpecScalar>>,
            Some(vals) => Some(vals@.map_values(|v: Scalar| v@)),
        },
{
    proof {
        assert(kinds@.skip(0) =~= kinds@);
    }
    decode_record_from(m, kinds, 0, off as usize)
}

/// Buffers written before the block keep their contents as the memory only
/// grows.
proof fn lemma_field_pair_extend(m1: Seq<u8>, m2: Seq<u8>, v: SpecScalar, p: (u32, u32))
    requires
        m1.len() <= m2.len(),
        m2.subrange(0, m1.len() as int) == m1,
        pair_fact(m1, v, p),
    ensures
        pair_fact(m2, v, p),
{
    match v {
        SpecScalar::Int(_) => {},
        SpecScalar::Str(b) => {
            assert forall|t: int| 0 <= t < p.1 implies #[trigger] m2.subrange(
                p.0 as int,
                p.0 + p.1,
            )[t] == b[t] by {
                assert(m2.subrange(0, m1.len() as int)[p.0 + t] == m2[p.0 + t]);
                assert(m1.subrange(p.0 as int, p.0 + p.1)[t] == m1[p.0 + t]);
            }
            assert(m2.subrange(p.0 as int, p.0 + p.1) =~= b);
        },
    }
}

/// What the string-writing pass guarantees of one field: for a pointer
/// field, a buffer below the current end that holds the string's bytes.
spec fn pair_fact(mem: Seq<u8>, v: SpecScalar, p: (u32, u32)) -> bool {
    match v {
        SpecScalar::Int(_) => true,
        SpecScalar::Str(b) => {
            &&& p.0 + p.1 <= mem.len()
            &&& p.1 == b.len()
            &&& mem.subrange(p.0 as int, p.0 + p.1) == b
        },
    }
}

/// Write a record into linear memory: first a fresh buffer for each string
/// field, then the record block itself — fixed-size fields in declaration
/// order, an inline word per integer and an `(offset, length)` pair per
/// string — and hand back the block's offset.  Decoding the block under the
/// fields' own kinds gives back exactly the encoded fields.
#[verifier::rlimit(100)]
#[verifier::loop_isolation(false)]
pub fn encode_record(m: &mut Mem, vals: &Vec<Scalar>) -> (off: u32)
    requires
        old(m)@.len() + spec_strs_len(vals@.map_values(|v: Scalar| v@)) + 8 * vals@.len()
            <= u32::MAX,
    ensures
        final(m)@.subrange(0, old(m)@.len() as int) == old(m)@,
        off == old(m)@.len() + spec_strs_len(vals@.map_values(|v: Scalar| v@)),
        final(m)@.len() == off + 8 * vals@.len(),
        spec_decode_record(
            final(m)@,
            vals@.map_values(|v: Scalar| v@).map_values(|v: SpecScalar| kind_of(v)),
            off as int,
        ) == Some(vals@.map_values(|v: Scalar| v@)),
{
    let ghost vv = vals@.map_values(|v: Scalar| v@);
    let n = vals.len();
    // first pass: a fresh buffer per string field
    let mut pairs: Vec<(u32, u32)> = Vec::new();
    let mut k: usize = 0;
    proof {
        assert(vv.take(0) =~= Seq::<SpecScalar>::empty());
        assert(spec_strs_cat(vv.take(0)) =~= Seq::<u8>::empty());
        assert(m@ =~= old(m)@ + spec_strs_cat(vv.take(0)));
        assert(vv.take(n as int) =~= vv);
    }
    while k < n
        invariant
            k <= n,
            pairs@.len() == k,
            m@ == old(m)@ + spec_strs_cat(vv.take(k as int)),
            forall|t: int| 0 <= t < k ==> pair_fact(m@, #[trigger] vv[t], pairs@[t]),
        decreases n - k,
    {
        let ghost pre = m@;
        match &vals[k] {
            Scalar::Int(_) => {
                pairs.push((0, 0));
                proof {
                    lemma_strs_cat_snoc(vv.take(k as int), vv[k as int]);
                    assert(vv.take(k + 1) =~= vv.take(k as int).push(vv[k as int]));
                    assert(spec_strs_cat(vv.take(k + 1)) =~= spec_strs_cat(vv.take(k as int)));
                }
            },
            Scalar::Str(b) => {
                proof {
                    lemma_strs_cat_snoc(vv.take(k as int), vv[k as int]);
                    assert(vv.take(k + 1) =~= vv.take(k as int).push(vv[k as int]));
                    assert(spec_strs_cat(vv.take(k + 1)).len() <= spec_strs_cat(vv).len()) by {
                        lemma_strs_cat_prefix(vv, k + 1);
                    }
                }
                let (so, sl) = encode_string(m, b.as_slice());
                pairs.push((so, sl));
                proof {
                    assert(m@ =~= old(m)@ + spec_strs_cat(vv.take(k + 1)));
                }
            },
        }
        proof {
            assert forall|t: int| 0 <= t < k implies pair_fact(m@, #[trigger] vv[t], pairs@[t]) by {
                assert(pairs@[t] == pairs@.take(k as int)[t]);
                assert(m@.subrange(0, pre.len() as int) =~= pre);
                lemma_field_pair_extend(pre, m@, vv[t], pairs@[t]);
            }
            assert(pair_fact(m@, vv[k as int], pairs@[k as int]));
        }
        k = k + 1;
    }
    // second pass: the record block, one eight-byte chunk per field
    let block = m.size();
    proof {
        assert(block == old(m)@.len() + spec_strs_len(vv));
    }
    let mut k: usize = 0;
    proof {
        assert(spec_fields_bytes(vv.take(0), pairs@.take(0)) =~= Seq::<u8>::empty());
        assert(m@ =~= old(m)@ + spec_strs_cat(vv) + spec_fields_bytes(vv.take(0), pairs@.take(0)));
    }
    while k < n
        invariant
            k <= n,
            pairs@.len() == n,
            block == old(m)@.len() + spec_strs_len(vv),
            m@ == old(m)@ + spec_strs_cat(vv) + spec_fields_bytes(
                vv.take(k as int),
                pairs@.take(k as int),
            ),
            spec_fields_bytes(vv.take(k as int), pairs@.take(k as int)).len() == 8 * k,
            forall|t: int| 0 <= t < n ==> pair_fact(m@, #[trigger] vv[t], pairs@[t]),
        decreases n - k,
    {
        let ghost pre = m@;
        match &vals[k] {
            Scalar::Int(x) => {
                let w: u64 = if *x >= 0 {
                    *x as u64
                } else {
                    let y: i64 = (*x + 9223372036854775807i64) + 1;
                    (y as u64) + 9223372036854775808u64
                };
                assert(w as int == i64_bits(*x as int));
                push_le64(m, w);
            },
            Scalar::Str(_) => {
                let p = pairs[k];
                push_le32(m, p.0);
                push_le32(m, p.1);
                proof {
                    assert(m@ =~= pre + (spec_le32(p.0 as int) + spec_le32(p.1 as int)));
                }
            },
        }
        proof {
            let ghost pk = pairs@[k as int];
            lemma_fields_bytes_snoc(vv.take(k as int), pairs@.take(k as int), vv[k as int], pk);
            assert(vv.take(k + 1) =~= vv.take(k as int).push(vv[k as int]));
            assert(pairs@.take(k + 1) =~= pairs@.take(k as int).push(pairs@[k as int]));
            assert(m@ =~= old(m)@ + spec_strs_cat(vv) + spec_fields_bytes(
                vv.take(k + 1),
                pairs@.take(k + 1),
            ));
            assert forall|t: int| 0 <= t < n implies pair_fact(m@, #[trigger] vv[t], pairs@[t]) by {
                assert(m@.subrange(0, pre.len() as int) =~= pre);
                lemma_field_pair_extend(pre, m@, vv[t], pairs@[t]);
            }
        }
        k = k + 1;
    }
    proof {
        assert(vv.take(n as int) =~= vv);
        assert(pairs@.take(n as int) =~= pairs@);
        let fb = spec_fields_bytes(vv, pairs@);
        let prefix = old(m)@ + spec_strs_cat(vv);
        assert(m@ == prefix + fb);
        lemma_fields_bytes_len(vv, pairs@);
        // each field satisfies its decode obligation in the final memory
        assert forall|t: int| 0 <= t < n implies field_fact(
            m@,
            #[trigger] vv[t],
            pairs@[t],
            block + 8 * t,
        ) by {
            lemma_fields_bytes_at(vv, pairs@, t);
            assert forall|u: int| 0 <= u < 8 implies #[trigger] m@.subrange(
                block + 8 * t,
                block + 8 * t + 8,
            )[u] == fb.subrange(8 * t, 8 * t + 8)[u] by {
                assert(m@.subrange(block + 8 * t, block + 8 * t + 8)[u] == m@[block + 8 * t + u]);
                assert(m@[block + 8 * t + u] == fb[8 * t + u]);
                assert(fb.subrange(8 * t, 8 * t + 8)[u] == fb[8 * t + u]);
            }
            assert(m@.subrange(block + 8 * t, block + 8 * t + 8) =~= fb.subrange(8 * t, 8 * t + 8));
            let pt = pairs@[t];
            assert(m@.subrange(block + 8 * t, block + 8 * t + 8) == spec_field_chunk(vv[t], pt));
            match vv[t] {
                SpecScalar::Int(_) => {},
                SpecScalar::Str(_) => {},
            }
        }
        lemma_decode_of_block(m@, vv, pairs@, block as int);
        assert(m@.subrange(0, old(m)@.len() as int) =~= old(m)@);
    }
    block as u32
}

/// A prefix of the string buffers is no longer than all of them.
proof fn lemma_strs_cat_prefix(vs: Seq<SpecScalar>, k: int)
    requires
        0 <= k <= vs.len(),
    ensures
        spec_strs_cat(vs.take(k)).len() <= spec_strs_cat(vs).len(),
    decreases vs.len() - k,
{
    if k < vs.len() {
        lemma_strs_cat_snoc(vs.take(k), vs[k]);
        assert(vs.take(k + 1) =~= vs.take(k).push(vs[k]));
        lemma_strs_cat_prefix(vs, k + 1);
    } else {
        assert(vs.take(k) =~= vs);
    }
}

/// A record's field values, in declaration order.
pub open spec fn rec_values(r: SpecRecord) -> Seq<SpecScalar> {
    r.fields.map_values(|f: SpecField| f.value)
}

/// A record's field kinds, in declaration order.
pub open spec fn rec_kinds(r: SpecRecord) -> Seq<FieldKind> {
    rec_values(r).map_values(|v: SpecScalar| kind_of(v))
}

/// All rows' field values, row after row: the order their chunks take in
/// one contiguous list block.
pub open spec fn spec_flat_values(rows: Seq<SpecRecord>) -> Seq<SpecScalar>
    decreases rows.len(),
{
    if rows.len() == 0 {
        Seq::empty()
    } else {
        rec_values(rows[0]) + spec_flat_values(rows.drop_first())
    }
}

proof fn lemma_flat_values_snoc(rows: Seq<SpecRecord>, r: SpecRecord)
    ensures
        spec_flat_values(rows.push(r)) == spec_flat_values(rows) + rec_values(r),
    decreases rows.len(),
{
    if rows.len() == 0 {
        assert(rows.push(r)[0] == r);
        assert(rows.push(r).drop_first() =~= Seq::<SpecRecord>::empty());
        assert(spec_flat_values(Seq::<SpecRecord>::empty()) =~= Seq::<SpecScalar>::empty());
        assert(rec_values(r) + Seq::<SpecScalar>::empty() =~= rec_values(r));
        assert(Seq::<SpecScalar>::empty() + rec_values(r) =~= rec_values(r));
    } else {
        lemma_flat_values_snoc(rows.drop_first(), r);
        assert(rows.push(r).drop_first() =~= rows.drop_first().push(r));
        assert(rows.push(r)[0] == rows[0]);
        assert(rec_values(rows[0]) + (spec_flat_values(rows.drop_first()) + rec_values(r)) =~= (
        rec_values(rows[0]) + spec_flat_values(rows.drop_first())) + rec_values(r));
    }
}

/// A decoded record has one value per kind, and its block lies inside the
/// memory.
proof fn lemma_decode_len(mem: Seq<u8>, kinds: Seq<FieldKind>, off: int)
    requires
        spec_decode_record(mem, kinds, off) is Some,
    ensures
        spec_decode_record(mem, kinds, off)->Some_0.len() == kinds.len(),
        kinds.len() > 0 ==> 0 <= off && off + 8 * kinds.len() <= mem.len(),
    decreases kinds.len(),
{
    if kinds.len() > 0 {
        lemma_decode_len(mem, kinds.drop_first(), off + 8);
    }
}

/// Decoding a concatenation of kind lists splits into decoding each part,
/// the second at the offset past the first's block.
proof fn lemma_decode_record_split(mem: Seq<u8>, ks1: Seq<FieldKind>, ks2: Seq<FieldKind>, off: int)
    requires
        spec_decode_record(mem, ks1 + ks2, off) is Some,
    ensures
        ({
            let vs = spec_decode_record(mem, ks1 + ks2, off)->Some_0;
            &&& spec_decode_record(mem, ks1, off) == Some(vs.take(ks1.len() as int))
            &&& spec_decode_record(mem, ks2, off + 8 * ks1.len()) == Some(
                vs.skip(ks1.len() as int),
            )
        }),
    decreases ks1.len(),
{
    let vs = spec_decode_record(mem, ks1 + ks2, off)->Some_0;
    lemma_decode_len(mem, ks1 + ks2, off);
    if ks1.len() == 0 {
        assert(ks1 + ks2 =~= ks2);
        assert(ks1 =~= Seq::<FieldKind>::empty());
        assert(vs.take(0) =~= Seq::<SpecScalar>::empty());
        assert(vs.skip(0) =~= vs);
    } else {
        assert((ks1 + ks2)[0] == ks1[0]);
        assert((ks1 + ks2).drop_first() =~= ks1.drop_first() + ks2);
        let rest = spec_decode_record(mem, ks1.drop_first() + ks2, off + 8)->Some_0;
        assert(vs == seq![vs[0]] + rest) by {
            assert(spec_decode_record(mem, ks1 + ks2, off) is Some);
        }
        lemma_decode_record_split(mem, ks1.drop_first(), ks2, off + 8);
        assert(spec_decode_record(mem, ks1.drop_first(), off + 8) == Some(
            rest.take(ks1.len() - 1),
        ));
        assert(spec_decode_record(mem, ks1, off) == Some(
            seq![vs[0]] + rest.take(ks1.len() - 1),
        ));
        assert(seq![vs[0]] + rest.take(ks1.len() - 1) =~= vs.take(ks1.len() as int));
        assert(rest.skip(ks1.len() - 1) =~= vs.skip(ks1.len() as int));
        assert(off + 8 + 8 * (ks1.len() - 1) == off + 8 * ks1.len());
    }
}

/// The rows a contiguous list block holds: `count` records of the given
/// kinds, stride one block each.
pub open spec fn spec_decode_record_list(
    mem: Seq<u8>,
    kinds: Seq<FieldKind>,
    off: int,
    count: int,
) -> Option<Seq<Seq<SpecScalar>>>
    decreases count,
{
    if count <= 0 {
        Some(Seq::empty())
    } else {
        match spec_decode_record(mem, kinds, off) {
            None => None,
            Some(v) => match spec_decode_record_list(mem, kinds, off + 8 * kinds.len(), count - 1) {
                None => None,
                Some(rest) => Some(seq![v] + rest),
            },
        }
    }
}

/// Read a list of records back out of linear memory: `count` blocks of the
/// given kinds, one after the other.
pub fn decode_record_list(m: &Mem, kinds: &Vec<FieldKind>, off: u32, count: u32) -> (r: Option<
    Vec<Vec<Scalar>>,
>)
    ensures
        spec_decode_record_list(m@, kinds@, off as int, count as int) == match r {
            None => None::<Seq<Seq<SpecScalar>>>,
            Some(rows) => Some(
                rows@.map_values(|row: Vec<Scalar>| row@.map_values(|v: Scalar| v@)),
            ),
        },
    decreases count,
{
    decode_record_list_from(m, kinds, off as usize, count)
}

fn decode_record_list_from(m: &Mem, kinds: &Vec<FieldKind>, off: usize, count: u32) -> (r: Option<
    Vec<Vec<Scalar>>,
>)
    ensures
        spec_decode_record_list(m@, kinds@, off as int, count as int) == match r {
            None => None::<Seq<Seq<SpecScalar>>>,
            Some(rows) => Some(
                rows@.map_values(|row: Vec<Scalar>| row@.map_values(|v: Scalar| v@)),
            ),
        },
    decreases count,
{
    if count == 0 {
        let rows: Vec<Vec<Scalar>> = Vec::new();
        proof {
            assert(rows@.map_values(|row: Vec<Scalar>| row@.map_values(|v: Scalar| v@))
                =~= Seq::<Seq<SpecScalar>>::empty());
        }
        return Some(rows);
    }
    proof {
        assert(kinds@.skip(0) =~= kinds@);
    }
    let first = match decode_record_from(m, kinds, 0, off) {
        None => {
            return None;
        },
        Some(v) => v,
    };
    let msize = m.size();
    let next = if kinds.len() == 0 {
        off
    } else {
        proof {
            lemma_decode_len(m@, kinds@, off as int);
            assert(off + 8 * kinds@.len() <= msize);
        }
        off + 8 * kinds.len()
    };
    match decode_record_list_from(m, kinds, next, count - 1) {
        None => None,
        Some(mut rows) => {
            let ghost pre = rows@.map_values(|row: Vec<Scalar>| row@.map_values(|v: Scalar| v@));
            rows.insert(0, first);
            proof {
                assert(rows@.map_values(|row: Vec<Scalar>| row@.map_values(|v: Scalar| v@))
                    =~= seq![first@.map_values(|v: Scalar| v@)] + pre);
                assert(first@.map_values(|v: Scalar| v@) == spec_decode_record(
                    m@,
                    kinds@,
                    off as int,
                )->Some_0);
            }
            Some(rows)
        },
    }
}

/// A contiguous block whose chunks are all the rows' fields in order, with
/// every row of the same kinds, decodes row by row at a fixed stride.
proof fn lemma_decode_rows(mem: Seq<u8>, rows: Seq<SpecRecord>, kinds: Seq<FieldKind>, off: int)
    requires
        forall|r: int| 0 <= r < rows.len() ==> rec_kinds(#[trigger] rows[r]) == kinds,
        spec_decode_record(
            mem,
            spec_flat_values(rows).map_values(|v: SpecScalar| kind_of(v)),
            off,
        ) == Some(spec_flat_values(rows)),
    ensures
        spec_decode_record_list(mem, kinds, off, rows.len() as int) == Some(
            rows.map_values(|r: SpecRecord| rec_values(r)),
        ),
    decreases rows.len(),
{
    if rows.len() == 0 {
        assert(rows.map_values(|r: SpecRecord| rec_values(r)) =~= Seq::<Seq<SpecScalar>>::empty());
    } else {
        let flat = spec_flat_values(rows);
        let head = rec_values(rows[0]);
        let rest = spec_flat_values(rows.drop_first());
        assert(flat == head + rest);
        let flatkinds = flat.map_values(|v: SpecScalar| kind_of(v));
        let restkinds = rest.map_values(|v: SpecScalar| kind_of(v));
        assert(rec_kinds(rows[0]) == kinds);
        assert(flatkinds =~= kinds + restkinds) by {
            assert(kinds.len() == head.len());
            assert forall|t: int| 0 <= t < flat.len() implies #[trigger] flatkinds[t] == (kinds
                + restkinds)[t] by {
                if t < head.len() {
                    assert(flat[t] == head[t]);
                    assert(kinds[t] == kind_of(head[t]));
                } else {
                    assert(flat[t] == rest[t - head.len()]);
                }
            }
        }
        lemma_decode_record_split(mem, kinds, restkinds, off);
        assert(flat.take(kinds.len() as int) =~= head);
        assert(flat.skip(kinds.len() as int) =~= rest);
        assert(spec_decode_record(mem, kinds, off) == Some(head));
        assert(spec_decode_record(mem, restkinds, off + 8 * kinds.len()) == Some(rest));
        assert forall|r: int| 0 <= r < rows.drop_first().len() implies rec_kinds(
            #[trigger] rows.drop_first()[r],
        ) == kinds by {
            assert(rows.drop_first()[r] == rows[r + 1]);
        }
        lemma_decode_rows(mem, rows.drop_first(), kinds, off + 8 * kinds.len());
        assert(seq![head] + rows.drop_first().map_values(|r: SpecRecord| rec_values(r))
            =~= rows.map_values(|r: SpecRecord| rec_values(r)));
    }
}

/// Write a list of records into linear memory: every string buffer first,
/// then one contiguous allocation for the whole list — each row a
/// fixed-stride block of chunks, rows in order — addressed by
/// `(base offset, element count)`.  All rows must share one field layout;
/// decoding the block under it, row by row, gives back exactly the encoded
/// rows.
pub fn encode_record_list(m: &mut Mem, rows: &Vec<RecordVal>) -> (r: (u32, u32))
    requires
        ({
            let rv = rows@.map_values(|row: RecordVal| row@);
            &&& rows@.len() <= u32::MAX
            &&& forall|t: int|
                0 <= t < rv.len() ==> rec_kinds(#[trigger] rv[t]) == rec_kinds(rv[0])
            &&& old(m)@.len() + spec_strs_len(spec_flat_values(rv)) + 8 * spec_flat_values(
                rv,
            ).len() <= u32::MAX
        }),
    ensures
        ({
            let rv = rows@.map_values(|row: RecordVal| row@);
            &&& final(m)@.subrange(0, old(m)@.len() as int) == old(m)@
            &&& r.0 == old(m)@.len() + spec_strs_len(spec_flat_values(rv))
            &&& r.1 == rows@.len()
            &&& final(m)@.len() == r.0 + 8 * spec_flat_values(rv).len()
            &&& rows@.len() > 0 ==> spec_decode_record_list(
                final(m)@,
                rec_kinds(rv[0]),
                r.0 as int,
                r.1 as int,
            ) == Some(rv.map_values(|row: SpecRecord| rec_values(row)))
        }),
{
    let ghost rv = rows@.map_values(|row: RecordVal| row@);
    let n = rows.len();
    let mut flat: Vec<Scalar> = Vec::new();
    let mut t: usize = 0;
    proof {
        assert(rv.take(0) =~= Seq::<SpecRecord>::empty());
        assert(spec_flat_values(rv.take(0)) =~= Seq::<SpecScalar>::empty());
        assert(flat@.map_values(|v: Scalar| v@) =~= spec_flat_values(rv.take(0)));
        assert(rv.take(n as int) =~= rv);
    }
    while t < n
        invariant
            t <= n,
            n == rows@.len(),
            rv == rows@.map_values(|row: RecordVal| row@),
            flat@.map_values(|v: Scalar| v@) == spec_flat_values(rv.take(t as int)),
        decreases n - t,
    {
        let nf = rows[t].fields.len();
        let mut k: usize = 0;
        proof {
            assert(rec_values(rv[t as int]).take(0) =~= Seq::<SpecScalar>::empty());
            assert(flat@.map_values(|v: Scalar| v@) =~= spec_flat_values(rv.take(t as int))
                + rec_values(rv[t as int]).take(0));
        }
        while k < nf
            invariant
                k <= nf,
                t < n,
                n == rows@.len(),
                rv == rows@.map_values(|row: RecordVal| row@),
                nf == rows@[t as int].fields@.len(),
                nf == rec_values(rv[t as int]).len(),
                flat@.map_values(|v: Scalar| v@) == spec_flat_values(rv.take(t as int))
                    + rec_values(rv[t as int]).take(k as int),
            decreases nf - k,
        {
            let x = crate::value::copy_scalar(&rows[t].fields[k].value);
            let ghost pre = flat@.map_values(|v: Scalar| v@);
            flat.push(x);
            proof {
                assert(flat@.map_values(|v: Scalar| v@) =~= pre.push(x@));
                assert(x@ == rec_values(rv[t as int])[k as int]);
                assert(rec_values(rv[t as int]).take(k + 1) =~= rec_values(rv[t as int]).take(
                    k as int,
                ).push(rec_values(rv[t as int])[k as int]));
                let tt = t as int;
                assert(pre.push(x@) =~= spec_flat_values(rv.take(tt)) + rec_values(rv[tt]).take(
                    k + 1,
                ));
            }
            k = k + 1;
        }
        proof {
            assert(rec_values(rv[t as int]).take(nf as int) =~= rec_values(rv[t as int]));
            lemma_flat_values_snoc(rv.take(t as int), rv[t as int]);
            assert(rv.take(t + 1) =~= rv.take(t as int).push(rv[t as int]));
        }
        t = t + 1;
    }
    proof {
        assert(flat@.map_values(|v: Scalar| v@) == spec_flat_values(rv));
    }
    let off = encode_record(m, &flat);
    proof {
        if n > 0 {
            lemma_decode_rows(m@, rv, rec_kinds(rv[0]), off as int);
        }
    }
    (off, n as u32)
}

/// Write the statically small return area: the `(offset, length)` pair of a
/// result that does not fit a machine word, and hand back a single pointer
/// to it.
pub fn encode_ret_area(m: &mut Mem, off: u32, len: u32) -> (ret: u32)
    requires
        old(m)@.len() + 8 <= u32::MAX,
    ensures
        ret == old(m)@.len(),
        final(m)@ == old(m)@ + spec_le32(off as int) + spec_le32(len as int),
        spec_rd32(final(m)@, ret as int) == off,
        spec_rd32(final(m)@, ret + 4) == len,
{
    let ret = m.data.len();
    push_le32(m, off);
    push_le32(m, len);
    proof {
        let fin = m@;
        assert(fin.subrange(ret as int, ret + 4) =~= spec_le32(off as int));
        assert(fin.subrange(ret + 4, ret + 8) =~= spec_le32(len as int));
        lemma_le32_rd(fin, ret as int, off as int);
        lemma_le32_rd(fin, ret + 4, len as int);
    }
    ret as u32
}

/// Read the `(offset, length)` pair out of a return area.
pub fn read_ret_area(m: &Mem, ret: u32) -> (r: (u32, u32))
    requires
        ret + 8 <= m@.len(),
    ensures
        r.0 == spec_rd32(m@, ret as int),
        r.1 == spec_rd32(m@, ret + 4),
{
    let msize = m.size();
    assert(ret as usize + 8 <= msize);
    let off = read_u32_at(m, ret as usize);
    let len = read_u32_at(m, ret as usize + 4);
    (off, len)
}

} // verus!
