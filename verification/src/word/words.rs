//! Containers for vectors of words of all word types.
use crate::word::by_word_type::{is_word_width, ByWordType, Shape};
use crate::word::bitseq::seq_xor;
use crate::word::word::{le_bytes_val, nat_le_bytes, Word};
use vstd::arithmetic::power2::pow2;
use vstd::prelude::*;

verus! {

/// The little-endian bytes of a natural number, without trailing zero bytes.
pub open spec fn varint_bytes(x: nat) -> Seq<u8>
    decreases x,
{
    if x == 0 {
        Seq::empty()
    } else {
        seq![(x % 256) as u8] + varint_bytes(x / 256)
    }
}

/// The concatenated little-endian bytes of a sequence of word values of `nb` bytes each.
pub open spec fn vals_bytes(vals: Seq<nat>, nb: nat) -> Seq<u8>
    decreases vals.len(),
{
    if vals.len() == 0 {
        Seq::empty()
    } else {
        vals_bytes(vals.drop_last(), nb) + nat_le_bytes(vals.last(), nb)
    }
}

/// Container for vectors of words of all word types.
///
/// Indexing of words is relative to the position of words of the same type.
#[derive(Clone, PartialEq, Eq, Debug)]
pub struct Words {
    /// The 8-bit words.
    pub u8: Vec<u8>,
    /// The 16-bit words.
    pub u16: Vec<u16>,
    /// The 32-bit words.
    pub u32: Vec<u32>,
    /// The 64-bit words.
    pub u64: Vec<u64>,
    /// The 128-bit words.
    pub u128: Vec<u128>,
}

impl Words {
    /// The values of the words of the type of the given width.
    pub open spec fn vals(self, w: nat) -> Seq<nat> {
        if w == 8 {
            self.u8@.map_values(|x: u8| x as nat)
        } else if w == 16 {
            self.u16@.map_values(|x: u16| x as nat)
        } else if w == 32 {
            self.u32@.map_values(|x: u32| x as nat)
        } else if w == 64 {
            self.u64@.map_values(|x: u64| x as nat)
        } else {
            self.u128@.map_values(|x: u128| x as nat)
        }
    }

    /// The value of each word fits in the width of its type.
    pub proof fn lemma_vals_fit(self)
        ensures
            forall|w: nat, i: int| is_word_width(w) && 0 <= i < self.vals(w).len() ==> #[trigger] self.vals(w)[i] < pow2(w),
    {
        crate::word::prim::lemma_pow2_widths();
    }

    /// The number of words of each type.
    pub open spec fn spec_shape(self) -> Shape {
        ByWordType {
            u8: self.u8.len(),
            u16: self.u16.len(),
            u32: self.u32.len(),
            u64: self.u64.len(),
            u128: self.u128.len(),
        }
    }

    /// The feature flags: bit `k` is set when the word type of `2^k` bytes is enabled, whatever
    /// the contents of the store. All five word types (`u8` to `u128`) are enabled, so bits 0 to
    /// 4 are set and the others clear.
    pub open spec fn spec_feature_flags(self) -> u8 {
        (1int + 2 + 4 + 8 + 16) as u8
    }

    /// The serialisation of the words of the type of the given width: their number as a
    /// varint, then their little-endian bytes.
    pub open spec fn typed_bytes(self, w: nat) -> Seq<u8> {
        varint_bytes(self.vals(w).len()) + vals_bytes(self.vals(w), w / 8)
    }

    /// The serialisation of this word store: the feature flags, then the words of each type
    /// from the narrowest to the widest.
    pub open spec fn spec_bytes(self) -> Seq<u8> {
        seq![self.spec_feature_flags()] + self.typed_bytes(8) + self.typed_bytes(16)
            + self.typed_bytes(32) + self.typed_bytes(64) + self.typed_bytes(128)
    }

    /// The feature flags of this word store: bit `k` is set when the word type of `2^k`
    /// bytes is enabled; `u8` is always enabled, and so are `u16` to `u128`.
    pub fn feature_flags(&self) -> (r: u8)
        ensures
            r == self.spec_feature_flags(),
            forall|k: u8| k < 8 ==> ((#[trigger] (r >> k)) & 1u8 == 1u8 <==> k < 5),
    {
        let mut flags: u8 = 1;
        flags = flags | 2;
        flags = flags | 4;
        flags = flags | 8;
        flags = flags | 16;
        proof {
            assert((1u8 | 2u8 | 4u8 | 8u8 | 16u8) == 31u8) by (bit_vector);
            assert forall|k: u8| k < 8 implies ((#[trigger] (flags >> k)) & 1u8 == 1u8 <==> k < 5) by {
                assert(forall|k: u8| k < 8 ==> ((31u8 >> k) & 1u8 == 1u8 <==> k < 5)) by (bit_vector);
            }
        }
        flags
    }

    /// Reference to the word vector of the given word type.
    pub fn as_vec<W: Word>(&self) -> (r: &Vec<W>)
        ensures
            *r == W::vec_in(*self),
    {
        W::vec_from_words(self)
    }

    /// Mutable reference to the word vector of the given word type.
    pub fn as_vec_mut<W: Word>(&mut self) -> (r: &mut Vec<W>)
        ensures
            *r == W::vec_in(*old(self)),
            *final(self) == W::with_vec(*old(self), *final(r)),
    {
        W::vec_mut_from_words(self)
    }

    /// Creates an empty word store.
    pub fn new() -> (r: Self)
        ensures
            r.spec_shape() == Shape::spec_zero(),
    {
        Self { u8: Vec::new(), u16: Vec::new(), u32: Vec::new(), u64: Vec::new(), u128: Vec::new() }
    }

    /// Creates an empty word store with the given capacities.
    pub fn with_capacity(capacities: Shape) -> (r: Self)
        ensures
            r.spec_shape() == Shape::spec_zero(),
    {
        Self {
            u8: Vec::with_capacity(capacities.u8),
            u16: Vec::with_capacity(capacities.u16),
            u32: Vec::with_capacity(capacities.u32),
            u64: Vec::with_capacity(capacities.u64),
            u128: Vec::with_capacity(capacities.u128),
        }
    }

    /// Creates a word store of the given shape with all words zero.
    pub fn zeros(shape: Shape) -> (r: Self)
        ensures
            r.spec_shape() == shape,
            forall|w: nat, i: int|
                is_word_width(w) && 0 <= i < r.vals(w).len() ==> #[trigger] r.vals(w)[i] == 0,
    {
        let r = Self {
            u8: zero_vec(shape.u8),
            u16: zero_vec(shape.u16),
            u32: zero_vec(shape.u32),
            u64: zero_vec(shape.u64),
            u128: zero_vec(shape.u128),
        };
        proof {
            assert forall|w: nat, i: int|
                is_word_width(w) && 0 <= i < r.vals(w).len() implies #[trigger] r.vals(w)[i] == 0 by {
                if w == 8 {
                    assert(r.u8@[i].value() == 0);
                } else if w == 16 {
                    assert(r.u16@[i].value() == 0);
                } else if w == 32 {
                    assert(r.u32@[i].value() == 0);
                } else if w == 64 {
                    assert(r.u64@[i].value() == 0);
                } else {
                    assert(r.u128@[i].value() == 0);
                }
            }
        }
        r
    }

    /// The number of words of each type.
    pub fn shape(&self) -> (r: Shape)
        ensures
            r == self.spec_shape(),
    {
        ByWordType {
            u8: self.u8.len(),
            u16: self.u16.len(),
            u32: self.u32.len(),
            u64: self.u64.len(),
            u128: self.u128.len(),
        }
    }

    /// Capacity of the vector of each word type.
    pub fn capacity(&self) -> (r: Shape)
        ensures
            r.u8 >= self.u8.len(),
            r.u16 >= self.u16.len(),
            r.u32 >= self.u32.len(),
            r.u64 >= self.u64.len(),
            r.u128 >= self.u128.len(),
    {
        ByWordType {
            u8: vec_capacity(&self.u8),
            u16: vec_capacity(&self.u16),
            u32: vec_capacity(&self.u32),
            u64: vec_capacity(&self.u64),
            u128: vec_capacity(&self.u128),
        }
    }

    /// Removes all words.
    pub fn clear(&mut self)
        ensures
            final(self).spec_shape() == Shape::spec_zero(),
    {
        self.u8.clear();
        self.u16.clear();
        self.u32.clear();
        self.u64.clear();
        self.u128.clear();
    }

    /// Absorbs the serialisation of this word store into the given hasher.
    pub fn update_hasher<H: crate::crypto::hasher::Hasher>(&self, hasher: &mut H)
        ensures
            final(hasher).absorbed() == old(hasher).absorbed() + self.spec_bytes(),
    {
        let bytes = self.as_bytes();
        hasher.update(bytes.as_slice());
    }

    /// Appends the serialisation of this word store to the given bytes.
    pub fn append_bytes(&self, bytes: &mut Vec<u8>)
        ensures
            final(bytes)@ == old(bytes)@ + self.spec_bytes(),
    {
        bytes.push(self.feature_flags());
        append_typed_bytes(&self.u8, bytes);
        append_typed_bytes(&self.u16, bytes);
        append_typed_bytes(&self.u32, bytes);
        append_typed_bytes(&self.u64, bytes);
        append_typed_bytes(&self.u128, bytes);
        proof {
            assert(self.vals(8) == self.u8@.map_values(|x: u8| x.value()));
            assert(self.vals(16) == self.u16@.map_values(|x: u16| x.value()));
            assert(self.vals(32) == self.u32@.map_values(|x: u32| x.value()));
            assert(self.vals(64) == self.u64@.map_values(|x: u64| x.value()));
            assert(self.vals(128) == self.u128@.map_values(|x: u128| x.value()));
            assert(final(bytes)@ =~= old(bytes)@ + self.spec_bytes());
        }
    }

    /// The serialisation of this word store.
    pub fn as_bytes(&self) -> (r: Vec<u8>)
        ensures
            r@ == self.spec_bytes(),
    {
        let mut bytes: Vec<u8> = Vec::new();
        self.append_bytes(&mut bytes);
        proof {
            assert(bytes@ =~= self.spec_bytes());
        }
        bytes
    }
}

impl ByWordType<usize> {
    /// The empty shape.
    pub open spec fn spec_zero() -> Shape {
        ByWordType { u8: 0usize, u16: 0usize, u32: 0usize, u64: 0usize, u128: 0usize }
    }
}

/// A vector of `n` zero words.
fn zero_vec<W: Word>(n: usize) -> (r: Vec<W>)
    ensures
        r@.len() == n,
        forall|i: int| 0 <= i < n ==> #[trigger] r@[i].value() == 0,
{
    let mut v: Vec<W> = Vec::new();
    let mut i: usize = 0;
    while i < n
        invariant
            i <= n,
            v@.len() == i,
            forall|k: int| 0 <= k < i ==> #[trigger] v@[k].value() == 0,
        decreases n - i,
    {
        v.push(W::zero());
        i = i + 1;
    }
    v
}

/// The capacity of a vector, which is at least its length.
#[verifier::external_body]
pub(crate) fn vec_capacity<T>(v: &Vec<T>) -> (r: usize)
    ensures
        r >= v.len(),
{
    v.capacity()
}

/// The little-endian bytes of a number, without trailing zero bytes.
pub fn usize_to_le_varint_bytes(x: usize) -> (r: Vec<u8>)
    ensures
        r@ == varint_bytes(x as nat),
{
    let mut out: Vec<u8> = Vec::new();
    let mut v = x;
    while v > 0
        invariant
            out@ + varint_bytes(v as nat) == varint_bytes(x as nat),
        decreases v,
    {
        let b = (v % 256) as u8;
        proof {
            assert(varint_bytes(v as nat) == seq![b] + varint_bytes((v / 256) as nat));
            assert(out@.push(b) + varint_bytes((v / 256) as nat) =~= out@ + varint_bytes(v as nat));
        }
        out.push(b);
        v = v / 256;
    }
    proof {
        assert(out@ + varint_bytes(0) =~= out@);
    }
    out
}

/// Appends the serialisation of a vector of words: its length as a varint, then the
/// little-endian bytes of its words.
fn append_typed_bytes<W: Word>(words: &Vec<W>, bytes: &mut Vec<u8>)
    ensures
        final(bytes)@ == old(bytes)@ + varint_bytes(words@.len()) + vals_bytes(
            words@.map_values(|x: W| x.value()),
            W::spec_width() / 8,
        ),
{
    let mut len_bytes = usize_to_le_varint_bytes(words.len());
    bytes.append(&mut len_bytes);
    let ghost start = bytes@;
    let ghost vals = words@.map_values(|x: W| x.value());
    let mut i: usize = 0;
    while i < words.len()
        invariant
            i <= words@.len(),
            vals == words@.map_values(|x: W| x.value()),
            bytes@ == start + vals_bytes(vals.take(i as int), W::spec_width() / 8),
        decreases words@.len() - i,
    {
        let mut wb = words[i].to_le_bytes();
        proof {
            assert(vals.take(i + 1).drop_last() =~= vals.take(i as int));
        }
        bytes.append(&mut wb);
        proof {
            assert(bytes@ =~= start + vals_bytes(vals.take(i + 1), W::spec_width() / 8));
        }
        i = i + 1;
    }
    proof {
        assert(vals.take(words@.len() as int) =~= vals);
    }
}

/// Error reporting a mismatch between an expected and an actual shape.
#[derive(Debug)]
pub struct ShapeError {
    expected: Shape,
    actual: Shape,
}

impl ShapeError {
    /// Creates a shape error from the expected and the actual shape.
    pub fn new(expected: Shape, actual: Shape) -> (r: Self)
        ensures
            r.spec_expected() == expected,
            r.spec_actual() == actual,
    {
        Self { expected, actual }
    }

    /// The expected shape.
    pub closed spec fn spec_expected(self) -> Shape {
        self.expected
    }

    /// The actual shape.
    pub closed spec fn spec_actual(self) -> Shape {
        self.actual
    }

    /// The expected shape.
    pub fn expected(&self) -> (r: Shape)
        ensures
            r == self.spec_expected(),
    {
        self.expected
    }

    /// The actual shape.
    pub fn actual(&self) -> (r: Shape)
        ensures
            r == self.spec_actual(),
    {
        self.actual
    }
}

/// The word-wise XOR of two word vectors of the same length.
fn xor_vec<W: Word>(a: &Vec<W>, b: &Vec<W>) -> (r: Vec<W>)
    requires
        a@.len() == b@.len(),
    ensures
        r@.len() == a@.len(),
        forall|i: int|
            0 <= i < a@.len() ==> #[trigger] r@[i].bits() == seq_xor(a@[i].bits(), b@[i].bits()),
{
    let mut out: Vec<W> = Vec::new();
    let mut i: usize = 0;
    while i < a.len()
        invariant
            a@.len() == b@.len(),
            i <= a@.len(),
            out@.len() == i,
            forall|k: int|
                0 <= k < i ==> #[trigger] out@[k].bits() == seq_xor(a@[k].bits(), b@[k].bits()),
        decreases a@.len() - i,
    {
        out.push(a[i].bitxor(b[i]));
        i = i + 1;
    }
    out
}

impl Words {
    /// Two word stores hold, at each position of each word type, words whose bits are the
    /// XOR of the corresponding words of two other stores.
    pub open spec fn is_xor_of(self, a: Words, b: Words) -> bool {
        &&& self.spec_shape() == a.spec_shape()
        &&& a.spec_shape() == b.spec_shape()
        &&& forall|i: int|
            0 <= i < self.u8@.len() ==> #[trigger] self.u8@[i].bits() == seq_xor(
                a.u8@[i].bits(),
                b.u8@[i].bits(),
            )
        &&& forall|i: int|
            0 <= i < self.u16@.len() ==> #[trigger] self.u16@[i].bits() == seq_xor(
                a.u16@[i].bits(),
                b.u16@[i].bits(),
            )
        &&& forall|i: int|
            0 <= i < self.u32@.len() ==> #[trigger] self.u32@[i].bits() == seq_xor(
                a.u32@[i].bits(),
                b.u32@[i].bits(),
            )
        &&& forall|i: int|
            0 <= i < self.u64@.len() ==> #[trigger] self.u64@[i].bits() == seq_xor(
                a.u64@[i].bits(),
                b.u64@[i].bits(),
            )
        &&& forall|i: int|
            0 <= i < self.u128@.len() ==> #[trigger] self.u128@[i].bits() == seq_xor(
                a.u128@[i].bits(),
                b.u128@[i].bits(),
            )
    }

    /// Word-wise XOR of two word stores of the same shape, or the shape error.
    pub fn bitxor(&self, rhs: &Words) -> (r: Result<Words, ShapeError>)
        ensures
            self.spec_shape() == rhs.spec_shape() <==> r is Ok,
            r matches Ok(x) ==> x.is_xor_of(*self, *rhs),
            r matches Err(e) ==> e.spec_expected() == self.spec_shape() && e.spec_actual()
                == rhs.spec_shape(),
    {
        let sa = self.shape();
        let sb = rhs.shape();
        if !(sa.u8 == sb.u8 && sa.u16 == sb.u16 && sa.u32 == sb.u32 && sa.u64 == sb.u64 && sa.u128
            == sb.u128) {
            return Err(ShapeError::new(sa, sb));
        }
        Ok(
            Words {
                u8: xor_vec(&self.u8, &rhs.u8),
                u16: xor_vec(&self.u16, &rhs.u16),
                u32: xor_vec(&self.u32, &rhs.u32),
                u64: xor_vec(&self.u64, &rhs.u64),
                u128: xor_vec(&self.u128, &rhs.u128),
            },
        )
    }
}

/// The length of the part of a serialised word store that holds the words of width `w`:
/// the bytes of their count, then `w / 8` bytes per word.
pub open spec fn section_len(ws: Words, w: nat) -> nat {
    varint_bytes(ws.vals(w).len()).len() + ws.vals(w).len() * (w / 8)
}

/// Where the part holding the words of width `w` starts in a serialised word store: after the
/// flag byte and the parts of the narrower word types.
pub open spec fn section_offset(ws: Words, w: nat) -> nat {
    if w <= 8 {
        1
    } else if w <= 16 {
        1 + section_len(ws, 8)
    } else if w <= 32 {
        1 + section_len(ws, 8) + section_len(ws, 16)
    } else if w <= 64 {
        1 + section_len(ws, 8) + section_len(ws, 16) + section_len(ws, 32)
    } else {
        1 + section_len(ws, 8) + section_len(ws, 16) + section_len(ws, 32) + section_len(ws, 64)
    }
}

/// The little-endian value of the varint of `x` is `x`, and it has no trailing zero byte.
pub proof fn lemma_varint_value(x: nat)
    ensures
        le_bytes_val(varint_bytes(x)) == x,
        varint_bytes(x).len() > 0 ==> varint_bytes(x).last() != 0,
        (varint_bytes(x).len() == 0) == (x == 0),
    decreases x,
{
    if x > 0 {
        lemma_varint_value(x / 256);
        let v = varint_bytes(x);
        assert(v.drop_first() =~= varint_bytes(x / 256));
        assert(v[0] as nat == x % 256);
        if varint_bytes(x / 256).len() == 0 {
            assert(x / 256 == 0);
            assert(x % 256 == x);
            assert(v.last() == v[0]);
        } else {
            assert(v.last() == varint_bytes(x / 256).last());
        }
    }
}

/// The varint of a larger number is at least as long.
pub proof fn lemma_varint_len_mono(x: nat, y: nat)
    requires
        x <= y,
    ensures
        varint_bytes(x).len() <= varint_bytes(y).len(),
    decreases y,
{
    if x > 0 {
        vstd::arithmetic::div_mod::lemma_div_is_ordered(x as int, y as int, 256);
        lemma_varint_len_mono(x / 256, y / 256);
    }
}

/// Byte `k * nb + j` of the concatenated little-endian bytes of words of `nb` bytes is byte `j`
/// of word `k`.
proof fn lemma_vals_bytes_index(vals: Seq<nat>, nb: nat, k: int, j: int)
    requires
        0 <= k < vals.len(),
        0 <= j < nb,
    ensures
        vals_bytes(vals, nb).len() == vals.len() * nb,
        vals_bytes(vals, nb)[k * nb + j] == ((vals[k] / pow2((8 * j) as nat)) % 256) as u8,
    decreases vals.len(),
{
    lemma_vals_bytes_len(vals, nb);
    let n = vals.len();
    let init = vals.drop_last();
    lemma_vals_bytes_len(init, nb);
    assert((n - 1) * nb == n * nb - nb) by (nonlinear_arith);
    if k < n - 1 {
        lemma_vals_bytes_index(init, nb, k, j);
        assert(k * nb + j < (n - 1) * nb) by (nonlinear_arith)
            requires
                k < n - 1,
                j < nb,
        ;
        assert(init[k] == vals[k]);
    } else {
        assert(k * nb == (n - 1) * nb);
    }
}

/// The concatenated little-endian bytes of words of `nb` bytes number `nb` per word.
proof fn lemma_vals_bytes_len(vals: Seq<nat>, nb: nat)
    ensures
        vals_bytes(vals, nb).len() == vals.len() * nb,
    decreases vals.len(),
{
    if vals.len() > 0 {
        lemma_vals_bytes_len(vals.drop_last(), nb);
        assert((vals.len() - 1) * nb + nb == vals.len() * nb) by (nonlinear_arith);
    }
}

/// The part of the serialisation of each word type is its count's varint followed by its words.
proof fn lemma_sections(ws: Words)
    ensures
        forall|w: nat| is_word_width(w) ==> #[trigger] ws.typed_bytes(w).len() == section_len(ws, w),
        forall|w: nat| is_word_width(w) ==> #[trigger] ws.spec_bytes().subrange(
            section_offset(ws, w) as int,
            (section_offset(ws, w) + section_len(ws, w)) as int,
        ) == ws.typed_bytes(w),
        ws.spec_bytes().len() == section_offset(ws, 128) + section_len(ws, 128),
{
    assert forall|w: nat| is_word_width(w) implies #[trigger] ws.typed_bytes(w).len() == section_len(ws, w) by {
        lemma_vals_bytes_len(ws.vals(w), w / 8);
    }
    let f = seq![ws.spec_feature_flags()];
    let (t8, t16, t32, t64, t128) = (ws.typed_bytes(8), ws.typed_bytes(16), ws.typed_bytes(32), ws.typed_bytes(64), ws.typed_bytes(128));
    let b = ws.spec_bytes();
    assert(b == f + t8 + t16 + t32 + t64 + t128);
    assert(t8.len() == section_len(ws, 8));
    assert(t16.len() == section_len(ws, 16));
    assert(t32.len() == section_len(ws, 32));
    assert(t64.len() == section_len(ws, 64));
    assert(t128.len() == section_len(ws, 128));
    assert(b.subrange(section_offset(ws, 8) as int, (section_offset(ws, 8) + section_len(ws, 8)) as int) =~= t8);
    assert(b.subrange(section_offset(ws, 16) as int, (section_offset(ws, 16) + section_len(ws, 16)) as int) =~= t16);
    assert(b.subrange(section_offset(ws, 32) as int, (section_offset(ws, 32) + section_len(ws, 32)) as int) =~= t32);
    assert(b.subrange(section_offset(ws, 64) as int, (section_offset(ws, 64) + section_len(ws, 64)) as int) =~= t64);
    assert(b.subrange(section_offset(ws, 128) as int, (section_offset(ws, 128) + section_len(ws, 128)) as int) =~= t128);
}

/// The serialisation of a word store: the flag byte `0x1f` (all five word types enabled), then
/// for each word type from `u8` to `u128`, the varint of the number of its words followed by
/// the `w / 8` little-endian bytes of each word; nothing else.
pub proof fn lemma_words_bytes_layout(ws: Words)
    ensures
        ws.spec_bytes()[0] == 0x1fu8,
        ws.spec_bytes().len() == 1 + section_len(ws, 8) + section_len(ws, 16) + section_len(ws, 32)
            + section_len(ws, 64) + section_len(ws, 128),
        forall|w: nat| is_word_width(w) ==> #[trigger] ws.spec_bytes().subrange(
            section_offset(ws, w) as int,
            (section_offset(ws, w) + varint_bytes(ws.vals(w).len()).len()) as int,
        ) == varint_bytes(ws.vals(w).len()),
        forall|w: nat, k: int, j: int|
            is_word_width(w) && 0 <= k < ws.vals(w).len() && 0 <= j < w / 8 ==> #[trigger] ws.spec_bytes()[section_offset(ws, w)
                + varint_bytes(ws.vals(w).len()).len() + k * (w / 8) + j] == ((ws.vals(w)[k] / pow2((8 * j) as nat)) % 256) as u8,
{
    lemma_sections(ws);
    assert forall|w: nat| is_word_width(w) implies #[trigger] ws.spec_bytes().subrange(
        section_offset(ws, w) as int,
        (section_offset(ws, w) + varint_bytes(ws.vals(w).len()).len()) as int,
    ) == varint_bytes(ws.vals(w).len()) by {
        lemma_section_count(ws, w);
    }
    assert forall|w: nat, k: int, j: int|
        is_word_width(w) && 0 <= k < ws.vals(w).len() && 0 <= j < w / 8 implies #[trigger] ws.spec_bytes()[section_offset(ws, w)
            + varint_bytes(ws.vals(w).len()).len() + k * (w / 8) + j] == ((ws.vals(w)[k] / pow2((8 * j) as nat)) % 256) as u8 by {
        lemma_section_word(ws, w, k, j);
    }
}

/// The part of the serialisation for the words of width `w` starts with their count's varint.
#[verifier::spinoff_prover]
proof fn lemma_section_count(ws: Words, w: nat)
    requires
        is_word_width(w),
    ensures
        ws.spec_bytes().subrange(
            section_offset(ws, w) as int,
            (section_offset(ws, w) + varint_bytes(ws.vals(w).len()).len()) as int,
        ) == varint_bytes(ws.vals(w).len()),
{
    lemma_sections(ws);
    let b = ws.spec_bytes();
    let o = section_offset(ws, w) as int;
    let vl = varint_bytes(ws.vals(w).len()).len() as int;
    let sec = b.subrange(o, o + section_len(ws, w));
    assert(sec == ws.typed_bytes(w));
    assert(b.subrange(o, o + vl) =~= sec.subrange(0, vl));
    assert(sec.subrange(0, vl) =~= varint_bytes(ws.vals(w).len()));
}

/// Byte `j` of word `k` of width `w` is in its place in the serialisation.
#[verifier::spinoff_prover]
proof fn lemma_section_word(ws: Words, w: nat, k: int, j: int)
    requires
        is_word_width(w),
        0 <= k < ws.vals(w).len(),
        0 <= j < w / 8,
    ensures
        ws.spec_bytes()[section_offset(ws, w) + varint_bytes(ws.vals(w).len()).len() + k * (w / 8) + j]
            == ((ws.vals(w)[k] / pow2((8 * j) as nat)) % 256) as u8,
{
    lemma_sections(ws);
    let b = ws.spec_bytes();
    let o = section_offset(ws, w) as int;
    let v = varint_bytes(ws.vals(w).len()).len() as int;
    let nb = w / 8;
    lemma_vals_bytes_index(ws.vals(w), nb, k, j);
    assert(k * nb + j < ws.vals(w).len() * nb) by (nonlinear_arith)
        requires
            k < ws.vals(w).len(),
            j < nb,
    ;
    let sec = b.subrange(o, o + section_len(ws, w));
    assert(sec == ws.typed_bytes(w));
    assert(sec[v + k * nb + j] == vals_bytes(ws.vals(w), nb)[k * nb + j]);
    assert(b[o + v + k * nb + j] == sec[v + k * nb + j]);
}

/// Two word stores that hold the same words of every type but one, and different words of
/// that type, have different serialisations.
pub proof fn lemma_words_bytes_distinct(a: Words, b: Words, w: nat)
    requires
        is_word_width(w),
        forall|v: nat| is_word_width(v) && v != w ==> #[trigger] a.vals(v) == b.vals(v),
        a.vals(w) != b.vals(w),
    ensures
        a.spec_bytes() != b.spec_bytes(),
{
    lemma_words_bytes_layout(a);
    lemma_words_bytes_layout(b);
    let na = a.vals(w).len();
    let nb = b.vals(w).len();
    let q = w / 8;
    assert(q > 0);
    assert forall|v: nat| is_word_width(v) && v != w implies #[trigger] section_len(a, v) == section_len(b, v) by {
        assert(a.vals(v) == b.vals(v));
    }
    assert(section_len(a, 8) == section_len(b, 8) || w == 8);
    assert(section_len(a, 16) == section_len(b, 16) || w == 16);
    assert(section_len(a, 32) == section_len(b, 32) || w == 32);
    assert(section_len(a, 64) == section_len(b, 64) || w == 64);
    assert(section_len(a, 128) == section_len(b, 128) || w == 128);
    if na != nb {
        if na < nb {
            lemma_varint_len_mono(na, nb);
            assert(na * q < nb * q) by (nonlinear_arith)
                requires
                    na < nb,
                    q > 0,
            ;
        } else {
            lemma_varint_len_mono(nb, na);
            assert(nb * q < na * q) by (nonlinear_arith)
                requires
                    nb < na,
                    q > 0,
            ;
        }
        assert(section_len(a, w) != section_len(b, w));
        assert(a.spec_bytes().len() != b.spec_bytes().len());
    } else {
        assert(section_offset(a, w) == section_offset(b, w));
        let k = choose|k: int| 0 <= k < na && a.vals(w)[k] != b.vals(w)[k];
        assert(exists|k: int| 0 <= k < na && a.vals(w)[k] != b.vals(w)[k]) by {
            if !(exists|k: int| 0 <= k < na && a.vals(w)[k] != b.vals(w)[k]) {
                assert(a.vals(w) =~= b.vals(w));
            }
        }
        a.lemma_vals_fit();
        b.lemma_vals_fit();
        if a.spec_bytes() == b.spec_bytes() {
            let o = section_offset(a, w) + varint_bytes(na).len();
            assert forall|j: nat| j < q implies #[trigger] byte_digit(a.vals(w)[k], j) == byte_digit(b.vals(w)[k], j) by {
                assert(a.spec_bytes()[o + k * q + j] == b.spec_bytes()[o + k * q + j]);
            }
            lemma_byte_digits_eq(a.vals(w)[k], b.vals(w)[k], q);
        }
    }
}

/// Byte `j` of the little-endian bytes of `v`.
spec fn byte_digit(v: nat, j: nat) -> u8 {
    ((v / pow2(8 * j)) % 256) as u8
}

/// Two numbers below 2^(8n) with the same first `n` little-endian bytes are equal.
proof fn lemma_byte_digits_eq(a: nat, b: nat, n: nat)
    requires
        a < pow2(8 * n),
        b < pow2(8 * n),
        forall|j: nat| j < n ==> #[trigger] byte_digit(a, j) == byte_digit(b, j),
    ensures
        a == b,
    decreases n,
{
    vstd::arithmetic::power2::lemma2_to64();
    if n > 0 {
        assert(byte_digit(a, 0) == byte_digit(b, 0));
        assert(a / 1 == a && b / 1 == b) by (nonlinear_arith);
        assert(a % 256 == b % 256);
        let a1 = a / 256;
        let b1 = b / 256;
        vstd::arithmetic::power2::lemma_pow2_adds(8, (8 * (n - 1)) as nat);
        assert(8 + 8 * (n - 1) == 8 * n);
        assert forall|j: nat| j < n - 1 implies #[trigger] byte_digit(a1, j) == byte_digit(b1, j) by {
            vstd::arithmetic::power2::lemma_pow2_adds(8, 8 * j);
            vstd::arithmetic::power2::lemma_pow2_pos(8 * j);
            vstd::arithmetic::div_mod::lemma_div_denominator(a as int, 256, pow2(8 * j) as int);
            vstd::arithmetic::div_mod::lemma_div_denominator(b as int, 256, pow2(8 * j) as int);
            assert(8 + 8 * j == 8 * (j + 1));
            assert(byte_digit(a, j + 1) == byte_digit(b, j + 1));
        }
        vstd::arithmetic::power2::lemma_pow2_pos((8 * (n - 1)) as nat);
        vstd::arithmetic::div_mod::lemma_multiply_divide_lt(a as int, 256, pow2((8 * (n - 1)) as nat) as int);
        vstd::arithmetic::div_mod::lemma_multiply_divide_lt(b as int, 256, pow2((8 * (n - 1)) as nat) as int);
        lemma_byte_digits_eq(a1, b1, (n - 1) as nat);
        vstd::arithmetic::div_mod::lemma_fundamental_div_mod(a as int, 256);
        vstd::arithmetic::div_mod::lemma_fundamental_div_mod(b as int, 256);
    }
}

} // verus!
