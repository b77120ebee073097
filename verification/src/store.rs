//! Solver data storage: plain arenas, or compressed 16-bit arenas with one
//! scale factor per node.
//!
//! Compressed mode stores cumulative regrets as i16 and cumulative strategy
//! as u16. Each node's block is quantized against the block's max magnitude,
//! kept in a per-node side array.

use crate::num::{larger, magnitude, Num};
use crate::num;
use vstd::prelude::*;
use vstd::slice::slice_subrange;

verus! {

/// A flat buffer, divided into blocks that belong to the nodes of a tree.
pub struct ArenaBuf<T> {
    buf: Vec<T>,
}

impl<T> View for ArenaBuf<T> {
    type V = Seq<T>;

    closed spec fn view(&self) -> Seq<T> {
        self.buf@
    }
}

/// `s` with the elements from `at` on replaced by `block`.
pub open spec fn overwritten<T>(s: Seq<T>, at: int, block: Seq<T>) -> Seq<T> {
    Seq::new(
        s.len(),
        |i: int|
            if at <= i < at + block.len() {
                block[i - at]
            } else {
                s[i]
            },
    )
}

impl<T: Copy> ArenaBuf<T> {
    /// A buffer of `len` times `v`.
    pub fn filled(len: usize, v: T) -> (r: Self)
        ensures
            r@ == Seq::new(len as nat, |i: int| v),
    {
        let mut buf: Vec<T> = Vec::new();
        let mut i: usize = 0;
        while i < len
            invariant
                i <= len,
                buf@.len() == i,
                forall|k: int| 0 <= k < i ==> buf@[k] == v,
            decreases len - i,
        {
            buf.push(v);
            i = i + 1;
        }
        assert(buf@ =~= Seq::new(len as nat, |i: int| v));
        ArenaBuf { buf }
    }

    pub fn len(&self) -> (r: usize)
        ensures
            r == self@.len(),
    {
        self.buf.len()
    }

    pub fn is_empty(&self) -> (r: bool)
        ensures
            r == (self@.len() == 0),
    {
        self.buf.len() == 0
    }

    pub fn as_slice(&self) -> (r: &[T])
        ensures
            r@ == self@,
    {
        self.buf.as_slice()
    }

    pub fn as_mut_slice(&mut self) -> (r: &mut [T])
        ensures
            r@ == old(self)@,
            final(self)@ == final(r)@,
    {
        self.buf.as_mut_slice()
    }

    /// The block of `len` elements at `offset`.
    pub fn slice(&self, offset: u64, len: usize) -> (r: &[T])
        requires
            offset + len <= self@.len(),
        ensures
            r@ == self@.subrange(offset as int, offset + len),
    {
        let all: usize = self.buf.len();
        assert(offset + len <= all);
        slice_subrange(self.buf.as_slice(), offset as usize, offset as usize + len)
    }

    pub fn read_at(&self, idx: usize) -> (r: T)
        requires
            idx < self@.len(),
        ensures
            r == self@[idx as int],
    {
        self.buf[idx]
    }

    pub fn write_at(&mut self, idx: usize, v: T)
        requires
            idx < old(self)@.len(),
        ensures
            final(self)@ == old(self)@.update(idx as int, v),
    {
        self.buf.set(idx, v);
    }

    /// Replaces the block at `offset`.
    pub fn write_block(&mut self, offset: u64, src: &[T])
        requires
            offset + src@.len() <= old(self)@.len(),
        ensures
            final(self)@ == overwritten(old(self)@, offset as int, src@),
    {
        let all: usize = self.buf.len();
        assert(offset + src@.len() <= all);
        let at: usize = offset as usize;
        let mut i: usize = 0;
        assert(self@ =~= overwritten(old(self)@, offset as int, src@.take(0)));
        while i < src.len()
            invariant
                i <= src@.len(),
                at == offset,
                at + src@.len() <= all,
                offset + src@.len() <= old(self)@.len(),
                self@ == overwritten(old(self)@, offset as int, src@.take(i as int)),
            decreases src@.len() - i,
        {
            self.buf.set(at + i, src[i]);
            assert(self@ =~= overwritten(old(self)@, offset as int, src@.take(i + 1)));
            i = i + 1;
        }
        assert(src@.take(src@.len() as int) =~= src@);
    }
}

impl<T: Copy + Default> ArenaBuf<T> {
    /// A buffer of `len` default values.
    pub fn new(len: usize) -> (r: Self)
        ensures
            r@.len() == len,
            exists|v: T| #[trigger]
                call_ensures(T::default, (), v) && r@ == Seq::new(len as nat, |i: int| v),
    {
        let v = T::default();
        let r = Self::filled(len, v);
        assert(call_ensures(T::default, (), v));
        r
    }
}

/// How solver arenas are stored in memory.
#[derive(Clone, Copy, Debug, PartialEq, Eq, Structural)]
pub enum Storage {
    /// Full-precision: 4 bytes per entry.
    F32,
    /// 16-bit quantized entries with one scale per node:
    /// regrets as i16, strategy sums as u16. 2 bytes per entry.
    Compressed,
}

/// One solver data arena (regrets, strategy sums, or predictions).
#[allow(inconsistent_fields)]
pub enum Store<S> {
    F32(ArenaBuf<S>),
    /// Signed quantization (regrets, predictions): v = q * scale / 32767.
    I16 {
        q: ArenaBuf<i16>,
        /// Block max magnitude, indexed by tree node index.
        scale: ArenaBuf<S>,
    },
    /// Unsigned quantization (strategy sums, always >= 0): v = q * scale / 65535.
    U16 { q: ArenaBuf<u16>, scale: ArenaBuf<S> },
}

// ---------------------------------------------------------------------------
// Quantization
// ---------------------------------------------------------------------------

/// The nearest 16-bit signed number.
pub open spec fn clamp_i16(v: i64) -> i16 {
    if v > 32767 {
        i16::MAX
    } else if v < -32768 {
        i16::MIN
    } else {
        v as i16
    }
}

/// The nearest 16-bit unsigned number.
pub open spec fn clamp_u16(v: i64) -> u16 {
    if v > 65535 {
        u16::MAX
    } else if v < 0 {
        0
    } else {
        v as u16
    }
}

/// Whether a block can be scaled by `max`.
pub open spec fn usable<S: Num>(max: S) -> bool {
    S::decimal_spec(0, 0).below_spec(max) && max.finite_spec()
}

/// A block as 16-bit signed numbers against its maximum; all zero where the
/// maximum cannot be used.
pub open spec fn quantized_i16<S: Num>(src: Seq<S>, max: S) -> Seq<i16> {
    let k = S::decimal_spec(32767, 0).over_spec(max);
    Seq::new(
        src.len(),
        |i: int|
            if usable(max) {
                clamp_i16(src[i].times_spec(k).nearest_spec())
            } else {
                0i16
            },
    )
}

/// A block as 16-bit unsigned numbers against its maximum; negative entries
/// count as zero, and all are zero where the maximum cannot be used.
pub open spec fn quantized_u16<S: Num>(src: Seq<S>, max: S) -> Seq<u16> {
    let k = S::decimal_spec(65535, 0).over_spec(max);
    Seq::new(
        src.len(),
        |i: int|
            if usable(max) {
                clamp_u16(num::larger_of(src[i], S::decimal_spec(0, 0)).times_spec(k).nearest_spec())
            } else {
                0u16
            },
    )
}

/// The scale that is kept with a quantized block.
pub open spec fn kept_scale<S: Num>(max: S) -> S {
    if usable(max) {
        max
    } else {
        S::decimal_spec(0, 0)
    }
}

/// What a quantized block stands for.
pub open spec fn decoded_i16<S: Num>(q: Seq<i16>, scale: S) -> Seq<S> {
    let k = scale.over_spec(S::decimal_spec(32767, 0));
    Seq::new(q.len(), |i: int| S::decimal_spec(q[i] as i64, 0).times_spec(k))
}

/// What a quantized block stands for.
pub open spec fn decoded_u16<S: Num>(q: Seq<u16>, scale: S) -> Seq<S> {
    let k = scale.over_spec(S::decimal_spec(65535, 0));
    Seq::new(q.len(), |i: int| S::decimal_spec(q[i] as i64, 0).times_spec(k))
}

/// The largest magnitude in a block.
pub open spec fn top_magnitude<S: Num>(src: Seq<S>) -> S
    decreases src.len(),
{
    if src.len() == 0 {
        S::decimal_spec(0, 0)
    } else {
        num::larger_of(top_magnitude(src.drop_last()), num::magnitude_of(src.last()))
    }
}

/// The largest number in a block, at least zero.
pub open spec fn top<S: Num>(src: Seq<S>) -> S
    decreases src.len(),
{
    if src.len() == 0 {
        S::decimal_spec(0, 0)
    } else {
        num::larger_of(top(src.drop_last()), src.last())
    }
}

pub fn decode_i16<S: Num>(q: &[i16], scale: S) -> (r: Vec<S>)
    ensures
        r@ == decoded_i16(q@, scale),
{
    let k = scale.over(S::decimal(32767, 0));
    let mut out: Vec<S> = Vec::new();
    let mut i: usize = 0;
    while i < q.len()
        invariant
            i <= q@.len(),
            k == scale.over_spec(S::decimal_spec(32767, 0)),
            out@ == decoded_i16(q@, scale).take(i as int),
        decreases q@.len() - i,
    {
        out.push(S::decimal(q[i] as i64, 0).times(k));
        assert(out@ =~= decoded_i16(q@, scale).take(i + 1));
        i = i + 1;
    }
    assert(out@ =~= decoded_i16(q@, scale));
    out
}

pub fn decode_u16<S: Num>(q: &[u16], scale: S) -> (r: Vec<S>)
    ensures
        r@ == decoded_u16(q@, scale),
{
    let k = scale.over(S::decimal(65535, 0));
    let mut out: Vec<S> = Vec::new();
    let mut i: usize = 0;
    while i < q.len()
        invariant
            i <= q@.len(),
            k == scale.over_spec(S::decimal_spec(65535, 0)),
            out@ == decoded_u16(q@, scale).take(i as int),
        decreases q@.len() - i,
    {
        out.push(S::decimal(q[i] as i64, 0).times(k));
        assert(out@ =~= decoded_u16(q@, scale).take(i + 1));
        i = i + 1;
    }
    assert(out@ =~= decoded_u16(q@, scale));
    out
}

/// Quantizes `src` into i16 against a given block maximum; returns the block
/// and the scale to keep (0 for a zero or non-finite maximum, with an all-zero
/// block).
pub fn quantize_i16<S: Num>(src: &[S], max: S) -> (r: (Vec<i16>, S))
    ensures
        r.0@ == quantized_i16(src@, max),
        r.1 == kept_scale(max),
{
    let zero = S::decimal(0, 0);
    let usable_max: bool = zero.below(max) && max.finite();
    let k = S::decimal(32767, 0).over(max);
    let mut out: Vec<i16> = Vec::new();
    let mut i: usize = 0;
    while i < src.len()
        invariant
            i <= src@.len(),
            usable_max == usable(max),
            k == S::decimal_spec(32767, 0).over_spec(max),
            out@ == quantized_i16(src@, max).take(i as int),
        decreases src@.len() - i,
    {
        if usable_max {
            let v: i64 = src[i].times(k).nearest();
            let c: i16 = if v > 32767 {
                32767
            } else if v < -32768 {
                -32768
            } else {
                v as i16
            };
            out.push(c);
        } else {
            out.push(0);
        }
        assert(out@ =~= quantized_i16(src@, max).take(i + 1));
        i = i + 1;
    }
    assert(out@ =~= quantized_i16(src@, max));
    (
        out,
        if usable_max {
            max
        } else {
            zero
        },
    )
}

/// Quantizes non-negative `src` into u16 against a given block maximum.
pub fn quantize_u16<S: Num>(src: &[S], max: S) -> (r: (Vec<u16>, S))
    ensures
        r.0@ == quantized_u16(src@, max),
        r.1 == kept_scale(max),
{
    let zero = S::decimal(0, 0);
    let usable_max: bool = zero.below(max) && max.finite();
    let k = S::decimal(65535, 0).over(max);
    let mut out: Vec<u16> = Vec::new();
    let mut i: usize = 0;
    while i < src.len()
        invariant
            i <= src@.len(),
            zero == S::decimal_spec(0, 0),
            usable_max == usable(max),
            k == S::decimal_spec(65535, 0).over_spec(max),
            out@ == quantized_u16(src@, max).take(i as int),
        decreases src@.len() - i,
    {
        if usable_max {
            let v: i64 = larger(src[i], zero).times(k).nearest();
            let c: u16 = if v > 65535 {
                65535
            } else if v < 0 {
                0
            } else {
                v as u16
            };
            out.push(c);
        } else {
            out.push(0);
        }
        assert(out@ =~= quantized_u16(src@, max).take(i + 1));
        i = i + 1;
    }
    assert(out@ =~= quantized_u16(src@, max));
    (
        out,
        if usable_max {
            max
        } else {
            zero
        },
    )
}

/// Quantizes `src` into i16; the scale is the largest magnitude.
pub fn encode_i16<S: Num>(src: &[S]) -> (r: (Vec<i16>, S))
    ensures
        r.0@ == quantized_i16(src@, top_magnitude(src@)),
        r.1 == kept_scale(top_magnitude(src@)),
{
    let mut m = S::decimal(0, 0);
    let mut i: usize = 0;
    assert(src@.take(0) =~= Seq::<S>::empty());
    while i < src.len()
        invariant
            i <= src@.len(),
            m == top_magnitude(src@.take(i as int)),
        decreases src@.len() - i,
    {
        assert(src@.take(i + 1).drop_last() =~= src@.take(i as int));
        m = larger(m, magnitude(src[i]));
        i = i + 1;
    }
    assert(src@.take(src@.len() as int) =~= src@);
    quantize_i16(src, m)
}

/// Quantizes non-negative `src` into u16; the scale is the largest entry.
pub fn encode_u16<S: Num>(src: &[S]) -> (r: (Vec<u16>, S))
    ensures
        r.0@ == quantized_u16(src@, top(src@)),
        r.1 == kept_scale(top(src@)),
{
    let mut m = S::decimal(0, 0);
    let mut i: usize = 0;
    assert(src@.take(0) =~= Seq::<S>::empty());
    while i < src.len()
        invariant
            i <= src@.len(),
            m == top(src@.take(i as int)),
        decreases src@.len() - i,
    {
        assert(src@.take(i + 1).drop_last() =~= src@.take(i as int));
        m = larger(m, src[i]);
        i = i + 1;
    }
    assert(src@.take(src@.len() as int) =~= src@);
    quantize_u16(src, m)
}

// ---------------------------------------------------------------------------
// Stores
// ---------------------------------------------------------------------------

impl<S: Num> Store<S> {
    /// How many entries the arena has.
    pub open spec fn entries(&self) -> nat {
        match self {
            Store::F32(b) => b@.len(),
            Store::I16 { q, scale } => q@.len(),
            Store::U16 { q, scale } => q@.len(),
        }
    }

    /// Whether the arena has a scale for the node, where it needs one.
    pub open spec fn has_node(&self, node_idx: int) -> bool {
        match self {
            Store::F32(b) => true,
            Store::I16 { q, scale } => node_idx < scale@.len(),
            Store::U16 { q, scale } => node_idx < scale@.len(),
        }
    }

    /// What a node's block holds.
    pub open spec fn block(&self, node_idx: int, offset: int, len: int) -> Seq<S> {
        match self {
            Store::F32(b) => b@.subrange(offset, offset + len),
            Store::I16 { q, scale } => decoded_i16(
                q@.subrange(offset, offset + len),
                scale@[node_idx],
            ),
            Store::U16 { q, scale } => decoded_u16(
                q@.subrange(offset, offset + len),
                scale@[node_idx],
            ),
        }
    }

    /// What is read back of `src` once written.
    pub open spec fn kept(&self, src: Seq<S>) -> Seq<S> {
        match self {
            Store::F32(b) => src,
            Store::I16 { q, scale } => decoded_i16(
                quantized_i16(src, top_magnitude(src)),
                kept_scale(top_magnitude(src)),
            ),
            Store::U16 { q, scale } => decoded_u16(quantized_u16(src, top(src)), kept_scale(top(src))),
        }
    }

    /// Whether two arenas have the same kind and sizes.
    pub open spec fn same_shape(&self, other: &Self) -> bool {
        match (self, other) {
            (Store::F32(a), Store::F32(b)) => a@.len() == b@.len(),
            (Store::I16 { q: a, scale: s }, Store::I16 { q: b, scale: t }) => a@.len() == b@.len()
                && s@.len() == t@.len(),
            (Store::U16 { q: a, scale: s }, Store::U16 { q: b, scale: t }) => a@.len() == b@.len()
                && s@.len() == t@.len(),
            _ => false,
        }
    }

    pub fn full(len: usize) -> (r: Self)
        ensures
            r is F32,
            r->F32_0@ == Seq::new(len as nat, |i: int| S::decimal_spec(0, 0)),
    {
        Store::F32(ArenaBuf::filled(len, S::decimal(0, 0)))
    }

    pub fn i16(len: usize, num_nodes: usize) -> (r: Self)
        ensures
            r is I16,
            r->I16_q@ == Seq::new(len as nat, |i: int| 0i16),
            r->I16_scale@ == Seq::new(num_nodes as nat, |i: int| S::decimal_spec(0, 0)),
    {
        Store::I16 {
            q: ArenaBuf::filled(len, 0i16),
            scale: ArenaBuf::filled(num_nodes, S::decimal(0, 0)),
        }
    }

    pub fn u16(len: usize, num_nodes: usize) -> (r: Self)
        ensures
            r is U16,
            r->U16_q@ == Seq::new(len as nat, |i: int| 0u16),
            r->U16_scale@ == Seq::new(num_nodes as nat, |i: int| S::decimal_spec(0, 0)),
    {
        Store::U16 {
            q: ArenaBuf::filled(len, 0u16),
            scale: ArenaBuf::filled(num_nodes, S::decimal(0, 0)),
        }
    }

    /// How many entries the arena has.
    pub fn len(&self) -> (r: usize)
        ensures
            r == self.entries(),
    {
        match self {
            Store::F32(b) => b.len(),
            Store::I16 { q, scale } => q.len(),
            Store::U16 { q, scale } => q.len(),
        }
    }

    /// How many bytes the arena takes: 4 for a full entry or a scale, 2 for a
    /// quantized entry.
    pub fn bytes(&self) -> (r: u64)
        requires
            self.entries() <= 0x1000_0000_0000_0000,
            self matches Store::I16 { q, scale } ==> scale@.len() <= 0x1000_0000_0000_0000,
            self matches Store::U16 { q, scale } ==> scale@.len() <= 0x1000_0000_0000_0000,
        ensures
            r == (match self {
                Store::F32(b) => b@.len() * 4,
                Store::I16 { q, scale } => q@.len() * 2 + scale@.len() * 4,
                Store::U16 { q, scale } => q@.len() * 2 + scale@.len() * 4,
            }),
    {
        match self {
            Store::F32(b) => b.len() as u64 * 4,
            Store::I16 { q, scale } => q.len() as u64 * 2 + scale.len() as u64 * 4,
            Store::U16 { q, scale } => q.len() as u64 * 2 + scale.len() as u64 * 4,
        }
    }

    /// Reads a node's block.
    pub fn read_f32(&self, node_idx: u32, offset: u64, len: usize) -> (r: Vec<S>)
        requires
            offset + len <= self.entries(),
            self.has_node(node_idx as int),
        ensures
            r@ == self.block(node_idx as int, offset as int, len as int),
    {
        match self {
            Store::F32(b) => {
                let s = b.slice(offset, len);
                let mut out: Vec<S> = Vec::new();
                let mut i: usize = 0;
                while i < s.len()
                    invariant
                        i <= s@.len(),
                        out@ == s@.take(i as int),
                    decreases s@.len() - i,
                {
                    out.push(s[i]);
                    assert(out@ =~= s@.take(i + 1));
                    i = i + 1;
                }
                assert(s@.take(s@.len() as int) =~= s@);
                out
            },
            Store::I16 { q, scale } => decode_i16(
                q.slice(offset, len),
                scale.read_at(node_idx as usize),
            ),
            Store::U16 { q, scale } => decode_u16(
                q.slice(offset, len),
                scale.read_at(node_idx as usize),
            ),
        }
    }

    /// Writes a node's block, refreshing the node's scale.
    pub fn write_f32(&mut self, node_idx: u32, offset: u64, src: &[S])
        requires
            offset + src@.len() <= old(self).entries(),
            old(self).has_node(node_idx as int),
        ensures
            final(self).same_shape(old(self)),
            written(*old(self), *final(self), node_idx as int, offset as int, src@),
    {
        match self {
            Store::F32(b) => b.write_block(offset, src),
            Store::I16 { q, scale } => {
                let (block, s) = encode_i16(src);
                q.write_block(offset, block.as_slice());
                scale.write_at(node_idx as usize, s);
            },
            Store::U16 { q, scale } => {
                let (block, s) = encode_u16(src);
                q.write_block(offset, block.as_slice());
                scale.write_at(node_idx as usize, s);
            },
        }
    }
}

/// A block that was written is read back: as it was from a full-precision
/// arena, as its quantized values from a compressed one.
pub proof fn law_read_back<S: Num>(
    before: Store<S>,
    after: Store<S>,
    node_idx: int,
    offset: int,
    src: Seq<S>,
)
    requires
        0 <= offset,
        0 <= node_idx,
        offset + src.len() <= before.entries(),
        before.has_node(node_idx),
        written(before, after, node_idx, offset, src),
    ensures
        after.block(node_idx, offset, src.len() as int) == before.kept(src),
{
    match (before, after) {
        (Store::F32(a), Store::F32(b)) => {
            assert(b@.subrange(offset, offset + src.len()) =~= src);
        },
        (Store::I16 { q: a, scale: s }, Store::I16 { q: b, scale: t }) => {
            let block = quantized_i16(src, top_magnitude(src));
            assert(b@.subrange(offset, offset + src.len()) =~= block);
        },
        (Store::U16 { q: a, scale: s }, Store::U16 { q: b, scale: t }) => {
            let block = quantized_u16(src, top(src));
            assert(b@.subrange(offset, offset + src.len()) =~= block);
        },
        _ => {},
    }
}

/// What [`Store::write_f32`] does to an arena.
pub open spec fn written<S: Num>(
    before: Store<S>,
    after: Store<S>,
    node_idx: int,
    offset: int,
    src: Seq<S>,
) -> bool {
    match (before, after) {
        (Store::F32(a), Store::F32(b)) => b@ == overwritten(a@, offset, src),
        (Store::I16 { q: a, scale: s }, Store::I16 { q: b, scale: t }) => {
            let m = top_magnitude(src);
            &&& b@ == overwritten(a@, offset, quantized_i16(src, m))
            &&& t@ == s@.update(node_idx, kept_scale(m))
        },
        (Store::U16 { q: a, scale: s }, Store::U16 { q: b, scale: t }) => {
            let m = top(src);
            &&& b@ == overwritten(a@, offset, quantized_u16(src, m))
            &&& t@ == s@.update(node_idx, kept_scale(m))
        },
        _ => false,
    }
}

/// Writing one node's block leaves the block of another node, elsewhere in
/// the arena, as it was.
pub proof fn law_write_is_local<S: Num>(
    before: Store<S>,
    after: Store<S>,
    node_idx: int,
    offset: int,
    src: Seq<S>,
    other: int,
    other_offset: int,
    other_len: int,
)
    requires
        0 <= offset,
        0 <= other_offset,
        0 <= other_len,
        offset + src.len() <= before.entries(),
        other_offset + other_len <= before.entries(),
        other_offset + other_len <= offset || offset + src.len() <= other_offset,
        other != node_idx,
        0 <= node_idx,
        0 <= other,
        before.has_node(node_idx),
        before.has_node(other),
        written(before, after, node_idx, offset, src),
    ensures
        after.block(other, other_offset, other_len) == before.block(other, other_offset, other_len),
{
    match (before, after) {
        (Store::F32(a), Store::F32(b)) => {
            assert(b@.subrange(other_offset, other_offset + other_len) =~= a@.subrange(
                other_offset,
                other_offset + other_len,
            ));
        },
        (Store::I16 { q: a, scale: s }, Store::I16 { q: b, scale: t }) => {
            assert(b@.subrange(other_offset, other_offset + other_len) =~= a@.subrange(
                other_offset,
                other_offset + other_len,
            ));
        },
        (Store::U16 { q: a, scale: s }, Store::U16 { q: b, scale: t }) => {
            assert(b@.subrange(other_offset, other_offset + other_len) =~= a@.subrange(
                other_offset,
                other_offset + other_len,
            ));
        },
        _ => {},
    }
}

// ---------------------------------------------------------------------------
// Arenas as mathematical values
// ---------------------------------------------------------------------------

/// A [`Store`] as a mathematical value.
pub ghost enum Ledger<S> {
    F32(Seq<S>),
    I16(Seq<i16>, Seq<S>),
    U16(Seq<u16>, Seq<S>),
}

impl<S: Num> View for Store<S> {
    type V = Ledger<S>;

    open spec fn view(&self) -> Ledger<S> {
        match self {
            Store::F32(b) => Ledger::F32(b@),
            Store::I16 { q, scale } => Ledger::I16(q@, scale@),
            Store::U16 { q, scale } => Ledger::U16(q@, scale@),
        }
    }
}

impl<S: Num> Ledger<S> {
    /// What a node's block holds.
    pub open spec fn block(self, node_idx: int, offset: int, len: int) -> Seq<S> {
        match self {
            Ledger::F32(b) => b.subrange(offset, offset + len),
            Ledger::I16(q, scale) => decoded_i16(
                q.subrange(offset, offset + len),
                scale[node_idx],
            ),
            Ledger::U16(q, scale) => decoded_u16(
                q.subrange(offset, offset + len),
                scale[node_idx],
            ),
        }
    }

    /// The arena after a node's block has been written.
    pub open spec fn wrote(self, node_idx: int, offset: int, src: Seq<S>) -> Ledger<S> {
        match self {
            Ledger::F32(b) => Ledger::F32(overwritten(b, offset, src)),
            Ledger::I16(q, scale) => Ledger::I16(
                overwritten(q, offset, quantized_i16(src, top_magnitude(src))),
                scale.update(node_idx, kept_scale(top_magnitude(src))),
            ),
            Ledger::U16(q, scale) => Ledger::U16(
                overwritten(q, offset, quantized_u16(src, top(src))),
                scale.update(node_idx, kept_scale(top(src))),
            ),
        }
    }
}

/// An arena's value says what it reads and what writing makes of it.
pub proof fn lemma_ledger<S: Num>(
    before: Store<S>,
    after: Store<S>,
    node_idx: int,
    offset: int,
    src: Seq<S>,
)
    requires
        written(before, after, node_idx, offset, src),
    ensures
        after@ == before@.wrote(node_idx, offset, src),
{
}

} // verus!
