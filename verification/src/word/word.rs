//! Trait for fixed-width machine words.
use crate::word::bitseq::{
    bits_val, bool_nat, carries, carry_at, lemma_bits_val_ext, lemma_bits_val_injective,
    lemma_bits_val_not, lemma_bits_val_one, lemma_bits_val_or_disjoint, lemma_bits_val_shl,
    lemma_bits_val_shr, lemma_bits_val_zero_iff, lemma_bits_val_zeros, lemma_nat_bits,
    lemma_nat_bits_high_zero, nat_bits, seq_and, seq_not, seq_or, seq_rotl, seq_rotr, seq_shl,
    seq_shr, seq_xor, seq_zeros,
};
use crate::word::by_word_type::is_word_width;
use crate::word::words::Words;
use vstd::arithmetic::power2::{lemma2_to64, pow2};
use vstd::prelude::*;

verus! {

/// The little-endian bytes of a natural number, truncated to `n` bytes.
pub open spec fn nat_le_bytes(v: nat, n: nat) -> Seq<u8> {
    Seq::new(n, |k: int| ((v / pow2((8 * k) as nat)) % 256) as u8)
}

/// The value of a little-endian byte sequence.
pub open spec fn le_bytes_val(s: Seq<u8>) -> nat
    decreases s.len(),
{
    if s.len() == 0 {
        0
    } else {
        s[0] as nat + 256 * le_bytes_val(s.drop_first())
    }
}

/// Trait for fixed-width machine words.
///
/// A word of width `w` is modelled by its `w` little-endian bits ([Word::bit]) and by its
/// numeric value ([Word::value]); the two agree ([Word::lemma_word_bits]).
pub trait Word: Sized + Copy {
    /// Width in bits for this word type.
    spec fn spec_width() -> nat;

    /// The little-endian bits of this word (index 0 is the least significant bit).
    spec fn bits(self) -> Seq<bool>;

    /// The numeric value of this word.
    spec fn value(self) -> nat;

    /// Relation between the bits and the value of a word.
    proof fn lemma_repr(self)
        ensures
            Self::spec_width() == 8 || Self::spec_width() == 16 || Self::spec_width() == 32
                || Self::spec_width() == 64 || Self::spec_width() == 128,
            self.value() < pow2(Self::spec_width()),
            self.bits().len() == Self::spec_width(),
            forall|i: int|
                0 <= i < Self::spec_width() ==> #[trigger] self.bits()[i] == ((self.value() / pow2(
                    i as nat,
                )) % 2 == 1),
    ;

    /// Words are determined by their values.
    proof fn lemma_injective(a: Self, b: Self)
        requires
            a.value() == b.value(),
        ensures
            a == b,
    ;

    /// The bits of a word are the binary digits of its value.
    proof fn lemma_word_bits(self)
        ensures
            self.bits() == nat_bits(self.value(), Self::spec_width()),
            bits_val(self.bits()) == self.value(),
            self.bits().len() == Self::spec_width(),
            Self::spec_width() == 8 || Self::spec_width() == 16 || Self::spec_width() == 32
                || Self::spec_width() == 64 || Self::spec_width() == 128,
            Self::spec_width() % 8 == 0,
            8 <= Self::spec_width() <= 128,
            self.value() < pow2(Self::spec_width()),
    {
        self.lemma_repr();
        assert(self.bits() =~= nat_bits(self.value(), Self::spec_width()));
        lemma_nat_bits(self.value(), Self::spec_width());
    }

    /// The width of a word type is one of the supported widths.
    proof fn lemma_width()
        ensures
            Self::spec_width() == 8 || Self::spec_width() == 16 || Self::spec_width() == 32
                || Self::spec_width() == 64 || Self::spec_width() == 128,
            Self::spec_width() % 8 == 0,
            8 <= Self::spec_width() <= 128,
            pow2(Self::spec_width()) > 0,
    {
        let x: Self = vstd::pervasive::arbitrary();
        x.lemma_word_bits();
        vstd::arithmetic::power2::lemma_pow2_pos(Self::spec_width());
    }

    /// Words with the same bits are equal.
    proof fn lemma_word_ext(a: Self, b: Self)
        requires
            a.bits() == b.bits(),
        ensures
            a == b,
    {
        a.lemma_word_bits();
        b.lemma_word_bits();
        Self::lemma_injective(a, b);
    }

    /// The bits of a zero word.
    proof fn lemma_zero_bits(self)
        requires
            self.value() == 0,
        ensures
            self.bits() == seq_zeros(Self::spec_width()),
    {
        self.lemma_word_bits();
        lemma_bits_val_zeros(Self::spec_width());
        lemma_bits_val_injective(self.bits(), seq_zeros(Self::spec_width()));
    }

    /// The bits of a word one.
    proof fn lemma_one_bits(self)
        requires
            self.value() == 1,
        ensures
            self.bits()[0],
            forall|i: int| 0 < i < Self::spec_width() ==> !#[trigger] self.bits()[i],
    {
        self.lemma_word_bits();
        let s = Seq::new(Self::spec_width(), |i: int| i == 0);
        lemma_bits_val_one(s);
        lemma_bits_val_injective(self.bits(), s);
    }

    /// The vector of words of this type in a word store.
    spec fn vec_in(store: Words) -> Vec<Self>;

    /// A word store with the vector of words of this type replaced.
    spec fn with_vec(store: Words, v: Vec<Self>) -> Words;

    /// Replacing the vector of words of this type changes nothing else in a word store.
    proof fn lemma_with_vec(store: Words, v: Vec<Self>)
        ensures
            Self::vec_in(Self::with_vec(store, v)) == v,
            Self::with_vec(store, v).spec_shape() == store.spec_shape().set(
                Self::spec_width(),
                v.len(),
            ),
            forall|w: nat|
                is_word_width(w) && w != Self::spec_width() ==> #[trigger] Self::with_vec(
                    store,
                    v,
                ).vals(w) == store.vals(w),
            Self::vec_in(store).len() == store.spec_shape().get(Self::spec_width()),
            store.vals(Self::spec_width()) == Self::vec_in(store)@.map_values(
                |x: Self| x.value(),
            ),
    ;

    /// Reference to the word vector of this word type in the given word store.
    fn vec_from_words(store: &Words) -> (r: &Vec<Self>)
        ensures
            *r == Self::vec_in(*store),
    ;

    /// Mutable reference to the word vector of this word type in the given word store.
    fn vec_mut_from_words(store: &mut Words) -> (r: &mut Vec<Self>)
        ensures
            *r == Self::vec_in(*old(store)),
            *final(store) == Self::with_vec(*old(store), *final(r)),
    ;

    /// Width in bits for this word type.
    fn width() -> (w: usize)
        ensures
            w == Self::spec_width(),
    ;

    /// The zero word.
    fn zero() -> (r: Self)
        ensures
            r.value() == 0,
    ;

    /// The word one.
    fn one() -> (r: Self)
        ensures
            r.value() == 1,
    ;

    /// The word with all bits set.
    fn max_word() -> (r: Self)
        ensures
            r.value() == pow2(Self::spec_width()) - 1,
    ;

    /// Bitwise NOT operation.
    fn not(self) -> (r: Self)
        ensures
            r.bits() == seq_not(self.bits()),
    ;

    /// Bitwise XOR operation.
    fn bitxor(self, rhs: Self) -> (r: Self)
        ensures
            r.bits() == seq_xor(self.bits(), rhs.bits()),
    ;

    /// Bitwise AND operation.
    fn bitand(self, rhs: Self) -> (r: Self)
        ensures
            r.bits() == seq_and(self.bits(), rhs.bits()),
    ;

    /// Bitwise OR operation.
    fn bitor(self, rhs: Self) -> (r: Self)
        ensures
            r.bits() == seq_or(self.bits(), rhs.bits()),
    ;

    /// Checked left shift of this word by the given amount.
    /// Returns zero if the shift amount exceeds word width.
    fn unbounded_shl(self, shift: usize) -> (r: Self)
        ensures
            r.bits() == seq_shl(self.bits(), shift as int),
    ;

    /// Checked right shift of this word by the given amount.
    /// Returns zero if the shift amount exceeds word width.
    fn unbounded_shr(self, shift: usize) -> (r: Self)
        ensures
            r.bits() == seq_shr(self.bits(), shift as int),
    ;

    /// Two's complement negation.
    fn wrapping_neg(self) -> (r: Self)
        ensures
            r.value() == (pow2(Self::spec_width()) - self.value()) % (pow2(
                Self::spec_width(),
            ) as int),
    ;

    /// Wrapping addition.
    fn wrapping_add(self, rhs: Self) -> (r: Self)
        ensures
            r.value() == (self.value() + rhs.value()) % pow2(Self::spec_width()),
    ;

    /// Overflowing addition.
    fn overflowing_add(self, rhs: Self) -> (r: (Self, bool))
        ensures
            r.0.value() == (self.value() + rhs.value()) % pow2(Self::spec_width()),
            r.1 == (self.value() + rhs.value() >= pow2(Self::spec_width())),
    ;

    /// Wrapping subtraction.
    fn wrapping_sub(self, rhs: Self) -> (r: Self)
        ensures
            r.value() == (self.value() + pow2(Self::spec_width()) - rhs.value()) % (pow2(
                Self::spec_width(),
            ) as int),
    ;

    /// Overflowing subtraction.
    fn overflowing_sub(self, rhs: Self) -> (r: (Self, bool))
        ensures
            r.0.value() == (self.value() + pow2(Self::spec_width()) - rhs.value()) % (pow2(
                Self::spec_width(),
            ) as int),
            r.1 == (self.value() < rhs.value()),
    ;

    /// Wrapping multiplication.
    fn wrapping_mul(self, rhs: Self) -> (r: Self)
        ensures
            r.value() == (self.value() * rhs.value()) % pow2(Self::spec_width()),
    ;

    /// Less than or equal comparison.
    fn le(self, rhs: Self) -> (r: bool)
        ensures
            r == (self.value() <= rhs.value()),
    ;

    /// Less than comparison.
    fn lt(self, rhs: Self) -> (r: bool)
        ensures
            r == (self.value() < rhs.value()),
    ;

    /// Greater than or equal comparison.
    fn ge(self, rhs: Self) -> (r: bool)
        ensures
            r == (self.value() >= rhs.value()),
    ;

    /// Greater than comparison.
    fn gt(self, rhs: Self) -> (r: bool)
        ensures
            r == (self.value() > rhs.value()),
    ;

    /// Equality comparison.
    fn eq(self, rhs: Self) -> (r: bool)
        ensures
            r == (self == rhs),
    ;

    /// Inequality comparison.
    fn ne(self, rhs: Self) -> (r: bool)
        ensures
            r == (self != rhs),
    ;

    /// Upcasts this word to the widest word type, without truncation.
    fn cast_to_umax(self) -> (r: u128)
        ensures
            r as nat == self.value(),
    ;

    /// Creates a word of this word type from a widest-type word, truncating if necessary.
    fn cast_from_umax(value: u128) -> (r: Self)
        ensures
            r.value() == value as nat % pow2(Self::spec_width()),
    ;

    /// Creates [Word::zero] or [Word::one] for this word type from a boolean.
    fn from_bool(b: bool) -> (r: Self)
        ensures
            r.value() == bool_nat(b),
    {
        if b {
            Self::one()
        } else {
            Self::zero()
        }
    }

    /// Returns true if this word is equal to [Word::zero].
    fn is_zero(self) -> (r: bool)
        ensures
            r == (self.value() == 0),
    {
        let z = Self::zero();
        proof {
            if self.value() == 0 {
                Self::lemma_injective(self, z);
            }
        }
        self.eq(z)
    }

    /// Returns true if this word is not equal to [Word::zero].
    fn is_nonzero(self) -> (r: bool)
        ensures
            r == (self.value() != 0),
    {
        let z = Self::zero();
        proof {
            if self.value() == 0 {
                Self::lemma_injective(self, z);
            }
        }
        self.ne(z)
    }

    /// Creates a boolean mask from the given bool, with all bits set to the boolean value.
    fn mask(b: bool) -> (r: Self)
        ensures
            r.bits() == Seq::new(Self::spec_width(), |i: int| b),
    {
        let r = if b {
            Self::max_word()
        } else {
            Self::zero()
        };
        proof {
            r.lemma_word_bits();
            lemma_all_bits(Self::spec_width());
            lemma_bits_val_zeros(Self::spec_width());
            let all = Seq::new(Self::spec_width(), |i: int| b);
            if b {
                assert(all =~= seq_not(seq_zeros(Self::spec_width())));
            } else {
                lemma_bits_val_ext(all, seq_zeros(Self::spec_width()));
            }
            assert(bits_val(r.bits()) == bits_val(all));
            lemma_bits_val_injective(r.bits(), all);
        }
        r
    }

    /// Least significant bit of this word.
    fn lsb(self) -> (r: bool)
        ensures
            r == self.bits()[0],
    {
        proof {
            self.lemma_repr();
        }
        self.bit_at(0)
    }

    /// Most significant bit of this word.
    fn msb(self) -> (r: bool)
        ensures
            r == self.bits()[Self::spec_width() - 1],
    {
        proof {
            self.lemma_repr();
        }
        self.bit_at(Self::width() - 1)
    }

    /// Bit of this word at given index (false if the index is out of bounds).
    fn bit_at(self, idx: usize) -> (r: bool)
        ensures
            r == (idx < Self::spec_width() && self.bits()[idx as int]),
    {
        let o = Self::one();
        let sh = self.unbounded_shr(idx);
        let t = sh.bitand(o);
        proof {
            self.lemma_repr();
            t.lemma_word_bits();
            o.lemma_one_bits();
            assert(t.bits()[0] == (sh.bits()[0] && o.bits()[0]));
            assert(sh.bits()[0] == (idx < Self::spec_width() && self.bits()[idx as int]));
            assert(t.bits()[0] == (idx < Self::spec_width() && self.bits()[idx as int]));
            assert forall|i: int| 0 < i < Self::spec_width() implies !t.bits()[i] by {
                assert(!o.bits()[i]);
                assert(t.bits()[i] == (sh.bits()[i] && o.bits()[i]));
            }
            if t.bits()[0] {
                lemma_bits_val_one(t.bits());
            } else {
                assert(t.bits() =~= seq_zeros(Self::spec_width()));
                lemma_bits_val_zeros(Self::spec_width());
            }
        }
        t.is_nonzero()
    }

    /// Overflowing left shift: the shifted word and the bits shifted out of it.
    fn overflowing_shl(self, shift: usize) -> (r: (Self, Self))
        ensures
            r.0.bits() == seq_shl(self.bits(), shift as int),
            forall|i: int|
                0 <= i < Self::spec_width() ==> #[trigger] r.1.bits()[i] == (0 <= i
                    + Self::spec_width() - shift < Self::spec_width() && self.bits()[i
                    + Self::spec_width() - shift]),
    {
        proof {
            self.lemma_repr();
        }
        let w = Self::width();
        if shift >= w {
            let z = Self::zero();
            let hi = if shift - w >= w {
                z
            } else {
                self.unbounded_shl(shift - w)
            };
            proof {
                z.lemma_zero_bits();
                assert(z.bits() =~= seq_shl(self.bits(), shift as int));
                assert forall|i: int| 0 <= i < Self::spec_width() implies #[trigger] hi.bits()[i] == (0
                    <= i + Self::spec_width() - shift < Self::spec_width() && self.bits()[i
                    + Self::spec_width() - shift]) by {
                    if shift - w >= w {
                        assert(!z.bits()[i]);
                    } else {
                        assert(hi.bits()[i] == seq_shl(self.bits(), (shift - w) as int)[i]);
                    }
                }
            }
            return (z, hi);
        }
        let lo = self.unbounded_shl(shift);
        let z = Self::zero();
        let hi = if shift == 0 {
            z
        } else {
            self.unbounded_shr(w - shift)
        };
        proof {
            z.lemma_zero_bits();
            assert forall|i: int| 0 <= i < Self::spec_width() implies #[trigger] hi.bits()[i] == (0
                <= i + Self::spec_width() - shift < Self::spec_width() && self.bits()[i
                + Self::spec_width() - shift]) by {
                if shift == 0 {
                    assert(!z.bits()[i]);
                } else {
                    assert(hi.bits()[i] == seq_shr(self.bits(), (w - shift) as int)[i]);
                }
            }
        }
        (lo, hi)
    }

    /// Left rotation of this word by given amount.
    fn rotate_left(self, rotate: usize) -> (r: Self)
        ensures
            r.bits() == seq_rotl(self.bits(), rotate as int),
    {
        proof {
            self.lemma_repr();
        }
        let w = Self::width();
        let s = rotate % w;
        if s == 0 {
            proof {
                assert forall|i: int| 0 <= i < w implies #[trigger] seq_rotl(
                    self.bits(),
                    rotate as int,
                )[i] == self.bits()[i] by {
                    lemma_rot_index(i, rotate as int, w as int);
                }
                assert(seq_rotl(self.bits(), rotate as int) =~= self.bits());
            }
            return self;
        }
        let r = self.unbounded_shl(s).bitor(self.unbounded_shr(w - s));
        proof {
            assert forall|i: int| 0 <= i < w implies #[trigger] r.bits()[i] == seq_rotl(
                self.bits(),
                rotate as int,
            )[i] by {
                lemma_rot_index(i, rotate as int, w as int);
            }
            assert(r.bits() =~= seq_rotl(self.bits(), rotate as int));
        }
        r
    }

    /// Right rotation of this word by given amount.
    fn rotate_right(self, rotate: usize) -> (r: Self)
        ensures
            r.bits() == seq_rotr(self.bits(), rotate as int),
    {
        proof {
            self.lemma_repr();
        }
        let w = Self::width();
        let s = rotate % w;
        if s == 0 {
            proof {
                assert forall|i: int| 0 <= i < w implies #[trigger] seq_rotr(
                    self.bits(),
                    rotate as int,
                )[i] == self.bits()[i] by {
                    lemma_rotr_index(i, rotate as int, w as int);
                }
                assert(seq_rotr(self.bits(), rotate as int) =~= self.bits());
            }
            return self;
        }
        let r = self.unbounded_shr(s).bitor(self.unbounded_shl(w - s));
        proof {
            assert forall|i: int| 0 <= i < w implies #[trigger] r.bits()[i] == seq_rotr(
                self.bits(),
                rotate as int,
            )[i] by {
                lemma_rotr_index(i, rotate as int, w as int);
            }
            assert(r.bits() =~= seq_rotr(self.bits(), rotate as int));
        }
        r
    }

    /// Carry generation: the carries of adding with propagate bits `self`, generate bits `g`
    /// and carry-in `c`, together with the carry out of the most significant bit.
    fn carry(self, g: Self, c: bool) -> (r: (Self, bool))
        ensures
            r.0.bits() == carries(self.bits(), g.bits(), c, Self::spec_width()),
            r.1 == carry_at(self.bits(), g.bits(), c, Self::spec_width()),
    {
        proof {
            self.lemma_word_bits();
            g.lemma_word_bits();
        }
        let w = Self::width();
        let p = self;
        let ghost ps = p.bits();
        let ghost gs = g.bits();
        let ghost cin = c;
        let mut carry = Self::zero();
        let mut mask = Self::one();
        let mut c: Self = Self::from_bool(c);
        let mut carry_out: bool = false;
        proof {
            carry.lemma_zero_bits();
            carry.lemma_word_bits();
            mask.lemma_word_bits();
            mask.lemma_one_bits();
            c.lemma_word_bits();
            if cin {
                c.lemma_one_bits();
            } else {
                c.lemma_zero_bits();
            }
            assert(mask.bits() =~= Seq::new(w as nat, |i: int| i == 0));
            assert(c.bits() =~= Seq::new(w as nat, |i: int| i == 0 && carry_at(ps, gs, cin, 0)));
            assert(carry.bits() =~= Seq::new(
                w as nat,
                |i: int| i < 0 && carry_at(ps, gs, cin, i as nat),
            ));
        }
        let mut k: usize = 0;
        while k < w
            invariant
                w == Self::spec_width(),
                ps == p.bits(),
                gs == g.bits(),
                ps.len() == w,
                gs.len() == w,
                k <= w,
                mask.bits() == Seq::new(w as nat, |i: int| i == k),
                c.bits() == Seq::new(w as nat, |i: int| i == k && carry_at(ps, gs, cin, k as nat)),
                carry.bits() == Seq::new(w as nat, |i: int| i < k && carry_at(ps, gs, cin, i as nat)),
                k > 0 ==> carry_out == carry_at(ps, gs, cin, k as nat),
            decreases w - k,
        {
            let carry1 = carry.bitxor(c);
            let c1 = c.bitand(p);
            let c2 = c1.bitxor(mask.bitand(g));
            let mask1 = mask.unbounded_shl(1);
            let out1 = c2.is_nonzero();
            let c3 = c2.unbounded_shl(1);
            proof {
                let kk = (k + 1) as nat;
                assert(carry_at(ps, gs, cin, kk) == ((carry_at(ps, gs, cin, k as nat) && ps[k as int])
                    != gs[k as int]));
                assert(carry1.bits() =~= Seq::new(
                    w as nat,
                    |i: int| i < k + 1 && carry_at(ps, gs, cin, i as nat),
                ));
                assert(c2.bits() =~= Seq::new(w as nat, |i: int| i == k && carry_at(ps, gs, cin, kk)));
                assert(mask1.bits() =~= Seq::new(w as nat, |i: int| i == k + 1));
                assert(c3.bits() =~= Seq::new(
                    w as nat,
                    |i: int| i == k + 1 && carry_at(ps, gs, cin, kk),
                ));
                c2.lemma_word_bits();
                lemma_bits_val_zero_iff(c2.bits());
                if carry_at(ps, gs, cin, kk) {
                    assert(c2.bits()[k as int]);
                }
            }
            carry = carry1;
            mask = mask1;
            carry_out = out1;
            c = c3;
            k = k + 1;
        }
        proof {
            assert(carry.bits() =~= carries(ps, gs, cin, w as nat));
        }
        (carry, carry_out)
    }

    /// Number of leading zeros in this word.
    fn leading_zeros(self) -> (r: usize)
        ensures
            r <= Self::spec_width(),
            forall|j: int| Self::spec_width() - r <= j < Self::spec_width() ==> !#[trigger] self.bits()[j],
            r < Self::spec_width() ==> self.bits()[Self::spec_width() - 1 - r],
    {
        let w = Self::width();
        let mut count: usize = 0;
        while count < w && !self.bit_at(w - 1 - count)
            invariant
                w == Self::spec_width(),
                count <= w,
                forall|j: int| w - count <= j < w ==> !#[trigger] self.bits()[j],
            decreases w - count,
        {
            count = count + 1;
        }
        count
    }

    /// Number of leading ones in this word.
    fn leading_ones(self) -> (r: usize)
        ensures
            r <= Self::spec_width(),
            forall|j: int| Self::spec_width() - r <= j < Self::spec_width() ==> #[trigger] self.bits()[j],
            r < Self::spec_width() ==> !self.bits()[Self::spec_width() - 1 - r],
    {
        let w = Self::width();
        let mut count: usize = 0;
        while count < w && self.bit_at(w - 1 - count)
            invariant
                w == Self::spec_width(),
                count <= w,
                forall|j: int| w - count <= j < w ==> #[trigger] self.bits()[j],
            decreases w - count,
        {
            count = count + 1;
        }
        count
    }

    /// Bit-reversal of this word.
    fn reverse_bits(self) -> (r: Self)
        ensures
            r.bits() == self.bits().reverse(),
    {
        proof {
            self.lemma_word_bits();
        }
        let w = Self::width();
        let one = Self::one();
        let mut r = Self::zero();
        proof {
            r.lemma_zero_bits();
            one.lemma_one_bits();
            one.lemma_word_bits();
            assert(r.bits() =~= Seq::new(w as nat, |j: int| j >= w - 0 && self.bits()[w - 1 - j]));
        }
        let mut i: usize = 0;
        while i < w
            invariant
                w == Self::spec_width(),
                self.bits().len() == w,
                one.value() == 1,
                one.bits().len() == w,
                one.bits()[0],
                forall|j: int| 0 < j < w ==> !#[trigger] one.bits()[j],
                i <= w,
                r.bits() == Seq::new(w as nat, |j: int| j >= w - i && self.bits()[w - 1 - j]),
            decreases w - i,
        {
            if self.bit_at(i) {
                let t = one.unbounded_shl(w - 1 - i);
                let r1 = r.bitor(t);
                proof {
                    assert forall|j: int| 0 <= j < w implies #[trigger] t.bits()[j] == (j == w - 1
                        - i) by {
                        if j >= w - 1 - i {
                            assert(t.bits()[j] == one.bits()[j - (w - 1 - i)]);
                        }
                    }
                    assert(r1.bits() =~= Seq::new(
                        w as nat,
                        |j: int| j >= w - (i + 1) && self.bits()[w - 1 - j],
                    ));
                }
                r = r1;
            } else {
                proof {
                    assert(r.bits() =~= Seq::new(
                        w as nat,
                        |j: int| j >= w - (i + 1) && self.bits()[w - 1 - j],
                    ));
                }
            }
            i = i + 1;
        }
        proof {
            assert(r.bits() =~= self.bits().reverse());
        }
        r
    }

    /// Converts this word to its little-endian byte representation.
    fn to_le_bytes(self) -> (r: Vec<u8>)
        ensures
            r@ == nat_le_bytes(self.value(), Self::spec_width() / 8),
    {
        proof {
            self.lemma_word_bits();
        }
        let nb = Self::width() / 8;
        let mut out: Vec<u8> = Vec::new();
        let mut k: usize = 0;
        while k < nb
            invariant
                nb == Self::spec_width() / 8,
                Self::spec_width() <= 128,
                k <= nb,
                out@ =~= nat_le_bytes(self.value(), Self::spec_width() / 8).subrange(0, k as int),
            decreases nb - k,
        {
            let sh = self.unbounded_shr(8 * k);
            let u = sh.cast_to_umax();
            let b = u as u8;
            proof {
                self.lemma_word_bits();
                sh.lemma_word_bits();
                lemma_bits_val_shr(self.bits(), (8 * k) as nat);
                lemma_u128_byte(u);
            }
            out.push(b);
            k = k + 1;
        }
        out
    }

    /// Creates a word of this type from its little-endian byte representation.
    fn from_le_bytes(bytes: &[u8]) -> (r: Self)
        requires
            bytes@.len() == Self::spec_width() / 8,
        ensures
            r.value() == le_bytes_val(bytes@),
    {
        let w = Self::width();
        let nb = w / 8;
        let mut r = Self::zero();
        let mut k: usize = nb;
        proof {
            r.lemma_zero_bits();
            r.lemma_word_bits();
            assert(bytes@.subrange(nb as int, nb as int).len() == 0);
            lemma2_to64();
        }
        while k > 0
            invariant
                w == Self::spec_width(),
                nb == w / 8,
                8 <= w <= 128,
                w % 8 == 0,
                bytes@.len() == nb,
                k <= nb,
                r.value() == le_bytes_val(bytes@.subrange(k as int, nb as int)),
                r.value() < pow2((8 * (nb - k)) as nat),
            decreases k,
        {
            k = k - 1;
            let b = Self::cast_from_umax(bytes[k] as u128);
            let sh = r.unbounded_shl(8);
            let r1 = sh.bitor(b);
            proof {
                let e = (8 * (nb - k - 1)) as nat;
                lemma2_to64();
                r.lemma_word_bits();
                b.lemma_word_bits();
                sh.lemma_word_bits();
                r1.lemma_word_bits();
                lemma_pow2_fits(8, w as nat);
                vstd::arithmetic::div_mod::lemma_small_mod(bytes[k as int] as nat, pow2(w as nat));
                assert(b.value() == bytes[k as int]);
                lemma_bits_val_shl(r.bits(), 8);
                vstd::arithmetic::power2::lemma_pow2_adds(e, 8);
                lemma_pow2_fits(e + 8, w as nat);
                assert(r.value() * pow2(8) < pow2(e + 8)) by (nonlinear_arith)
                    requires
                        r.value() < pow2(e),
                        pow2(e + 8) == pow2(e) * pow2(8),
                        pow2(8) == 256,
                ;
                vstd::arithmetic::div_mod::lemma_small_mod(r.value() * pow2(8), pow2(w as nat));
                assert forall|i: int| 0 <= i < w implies !(#[trigger] sh.bits()[i] && b.bits()[i]) by {
                    if i >= 8 {
                        lemma_nat_bits_high_zero(b.value(), 8, i as nat);
                    }
                }
                lemma_bits_val_or_disjoint(sh.bits(), b.bits());
                assert(bytes@.subrange(k as int, nb as int).drop_first() =~= bytes@.subrange(
                    k + 1,
                    nb as int,
                ));
                assert(bytes@.subrange(k as int, nb as int)[0] == bytes[k as int]);
                assert(8 * (nb - k) == e + 8);
            }
            r = r1;
        }
        proof {
            assert(bytes@.subrange(0, nb as int) =~= bytes@);
        }
        r
    }

    /// Converts this word to its big-endian byte representation.
    fn to_be_bytes(self) -> (r: Vec<u8>)
        ensures
            r@ == nat_le_bytes(self.value(), Self::spec_width() / 8).reverse(),
    {
        let le = self.to_le_bytes();
        reverse_bytes(&le)
    }

    /// Creates a word of this type from its big-endian byte representation.
    fn from_be_bytes(bytes: &[u8]) -> (r: Self)
        requires
            bytes@.len() == Self::spec_width() / 8,
        ensures
            r.value() == le_bytes_val(bytes@.reverse()),
    {
        let le = reverse_bytes(bytes);
        Self::from_le_bytes(le.as_slice())
    }

    /// Byte-reversal of this word.
    fn swap_bytes(self) -> (r: Self)
        ensures
            r.value() == le_bytes_val(nat_le_bytes(self.value(), Self::spec_width() / 8).reverse()),
    {
        let be = self.to_be_bytes();
        proof {
            self.lemma_word_bits();
        }
        Self::from_le_bytes(be.as_slice())
    }


}

/// Converts a word to a word of another type `U`, truncating if necessary.
pub fn cast<W: Word, U: Word>(x: W) -> (r: U)
    ensures
        r.value() == x.value() % pow2(U::spec_width()),
{
    U::cast_from_umax(x.cast_to_umax())
}

/// Tiles a word into a target word type: bit `i` of the result is bit `i % w` of the word,
/// where `w` is the width of the word type.
///
/// If the target word size is smaller, this behaves as a [cast] instead.
/// If the target word size is the same as this word size, the result is the same as this word.
pub fn tile<W: Word, U: Word>(x: W) -> (r: U)
    ensures
        forall|i: int|
            0 <= i < U::spec_width() ==> #[trigger] r.bits()[i] == x.bits()[i
                % (W::spec_width() as int)],
{
    proof {
        x.lemma_word_bits();
    }
    let mut res: U = cast(x);
    let mut width = W::width();
    let uw = U::width();
    proof {
        res.lemma_word_bits();
        let wd = width as int;
        assert forall|i: int| 0 <= i < uw implies #[trigger] res.bits()[i] == (i < wd
            && x.bits()[i % wd]) by {
            lemma_cast_bit(x.value(), width as nat, uw as nat, i as nat);
            if i < wd {
                vstd::arithmetic::div_mod::lemma_small_mod(i as nat, width as nat);
            }
        }
    }
    while width < uw
        invariant
            uw == U::spec_width(),
            uw == 8 || uw == 16 || uw == 32 || uw == 64 || uw == 128,
            width == 8 || width == 16 || width == 32 || width == 64 || width == 128,
            width as nat % W::spec_width() == 0,
            x.bits().len() == W::spec_width(),
            W::spec_width() > 0,
            res.bits().len() == uw,
            forall|i: int|
                0 <= i < uw ==> #[trigger] res.bits()[i] == (i < width && x.bits()[i
                    % (W::spec_width() as int)]),
        decreases uw - width,
    {
        let sh = res.unbounded_shl(width);
        let res1 = sh.bitxor(res);
        proof {
            let wd = W::spec_width() as int;
            res1.lemma_word_bits();
            vstd::arithmetic::div_mod::lemma_fundamental_div_mod(width as int, wd);
            vstd::arithmetic::div_mod::lemma_mod_multiples_basic(2 * (width as int / wd), wd);
            assert(2 * width == (2 * (width as int / wd)) * wd) by (nonlinear_arith)
                requires
                    width == wd * (width as int / wd) + 0,
            ;
            assert forall|i: int| 0 <= i < uw implies #[trigger] res1.bits()[i] == (i < 2 * width
                && x.bits()[i % wd]) by {
                if i >= width {
                    lemma_mod_sub_multiple(i, width as int, wd);
                }
            }
        }
        res = res1;
        width = width * 2;
    }
    res
}

/// Rotation index arithmetic: rotating left by `rot` is rotating left by `rot % w`.
pub proof fn lemma_rot_index(i: int, rot: int, w: int)
    requires
        0 <= i < w,
        0 <= rot,
    ensures
        (i - rot) % w == (if i - rot % w >= 0 {
            i - rot % w
        } else {
            i - rot % w + w
        }),
{
    let q = rot / w;
    let s = rot % w;
    vstd::arithmetic::div_mod::lemma_fundamental_div_mod(rot, w);
    assert(i - rot == (-q) * w + (i - s)) by (nonlinear_arith)
        requires
            rot == w * q + s,
    ;
    assert(i - rot == (-q - 1) * w + (i - s + w)) by (nonlinear_arith)
        requires
            rot == w * q + s,
    ;
    if i >= s {
        vstd::arithmetic::div_mod::lemma_fundamental_div_mod_converse(i - rot, w, -q, i - s);
    } else {
        vstd::arithmetic::div_mod::lemma_fundamental_div_mod_converse(
            i - rot,
            w,
            -q - 1,
            i - s + w,
        );
    }
}

/// Rotation index arithmetic: rotating right by `rot` is rotating right by `rot % w`.
pub proof fn lemma_rotr_index(i: int, rot: int, w: int)
    requires
        0 <= i < w,
        0 <= rot,
    ensures
        (i + rot) % w == (if i + rot % w < w {
            i + rot % w
        } else {
            i + rot % w - w
        }),
{
    let q = rot / w;
    let s = rot % w;
    vstd::arithmetic::div_mod::lemma_fundamental_div_mod(rot, w);
    assert(i + rot == q * w + (i + s)) by (nonlinear_arith)
        requires
            rot == w * q + s,
    ;
    assert(i + rot == (q + 1) * w + (i + s - w)) by (nonlinear_arith)
        requires
            rot == w * q + s,
    ;
    if i + s < w {
        vstd::arithmetic::div_mod::lemma_fundamental_div_mod_converse(i + rot, w, q, i + s);
    } else {
        vstd::arithmetic::div_mod::lemma_fundamental_div_mod_converse(
            i + rot,
            w,
            q + 1,
            i + s - w,
        );
    }
}

/// Reverses a byte sequence.
pub fn reverse_bytes(bytes: &[u8]) -> (r: Vec<u8>)
    ensures
        r@ == bytes@.reverse(),
{
    let n = bytes.len();
    let mut out: Vec<u8> = Vec::new();
    let mut k: usize = 0;
    while k < n
        invariant
            n == bytes@.len(),
            k <= n,
            out@ =~= bytes@.reverse().subrange(0, k as int),
        decreases n - k,
    {
        out.push(bytes[n - 1 - k]);
        k = k + 1;
    }
    out
}

/// The low byte of a widest-type word.
pub proof fn lemma_u128_byte(v: u128)
    ensures
        (v as u8) as nat == v as nat % 256,
{
    assert((v as u8) == v % 256) by (bit_vector);
}

/// A power of two with a smaller exponent is smaller.
pub proof fn lemma_pow2_fits(a: nat, b: nat)
    requires
        a <= b,
    ensures
        pow2(a) <= pow2(b),
{
    if a < b {
        vstd::arithmetic::power2::lemma_pow2_strictly_increases(a, b);
    }
}

/// Bit `i` of `v % 2^k` (with `v < 2^w`) is bit `i` of `v` below `k`, and clear otherwise.
pub proof fn lemma_cast_bit(v: nat, w: nat, k: nat, i: nat)
    requires
        v < pow2(w),
        i < k,
    ensures
        ((v % pow2(k)) / pow2(i)) % 2 == if i < w {
            (v / pow2(i)) % 2
        } else {
            0
        },
{
    vstd::arithmetic::power2::lemma_pow2_pos(k);
    vstd::arithmetic::power2::lemma_pow2_pos(i);
    if i < w {
        lemma_mod_pow2_bit(v, k, i);
    }
    if i >= w {
        lemma_pow2_fits(w, k);
        vstd::arithmetic::div_mod::lemma_small_mod(v, pow2(k));
        lemma_nat_bits_high_zero(v, w, i);
    }
}

/// Bit `i < k` of `v % 2^k` is bit `i` of `v`.
pub proof fn lemma_mod_pow2_bit(v: nat, k: nat, i: nat)
    requires
        i < k,
    ensures
        ((v % pow2(k)) / pow2(i)) % 2 == (v / pow2(i)) % 2,
{
    let a = pow2(i) as int;
    let b = pow2((k - i) as nat) as int;
    let c = pow2((k - i - 1) as nat) as int;
    vstd::arithmetic::power2::lemma_pow2_pos(i);
    vstd::arithmetic::power2::lemma_pow2_pos((k - i) as nat);
    vstd::arithmetic::power2::lemma_pow2_pos((k - i - 1) as nat);
    vstd::arithmetic::power2::lemma_pow2_adds(i, (k - i) as nat);
    vstd::arithmetic::power2::lemma_pow2_adds(1, (k - i - 1) as nat);
    lemma2_to64();
    assert(pow2(k) == a * b);
    assert(b == 2 * c);
    vstd::arithmetic::div_mod::lemma_mod_breakdown(v as int, a, b);
    let q = (v as int / a) % b;
    let r = v as int % a;
    assert(v as int % (a * b) == a * q + r);
    assert(0 <= r < a);
    vstd::arithmetic::div_mod::lemma_fundamental_div_mod_converse(a * q + r, a, q, r);
    vstd::arithmetic::div_mod::lemma_mod_mod(v as int / a, 2, c);
}

/// Index arithmetic for tiling: shifting by a multiple of `w` keeps the index modulo `w`.
pub proof fn lemma_mod_sub_multiple(i: int, m: int, w: int)
    requires
        0 < w,
        m % w == 0,
        0 <= m <= i,
    ensures
        (i - m) % w == i % w,
{
    vstd::arithmetic::div_mod::lemma_fundamental_div_mod(m, w);
    vstd::arithmetic::div_mod::lemma_mod_sub_multiples_vanish(i, w);
    assert(m == w * (m / w));
    vstd::arithmetic::div_mod::lemma_mod_multiples_vanish(-(m / w), i, w);
    assert(i - m == w * (-(m / w)) + i) by (nonlinear_arith)
        requires
            m == w * (m / w),
    ;
}

/// The sequence with all bits set is the complement of the zero sequence.
pub proof fn lemma_all_bits(n: nat)
    ensures
        bits_val(seq_not(seq_zeros(n))) + 1 == pow2(n),
{
    lemma_bits_val_not(seq_zeros(n));
    lemma_bits_val_zeros(n);
}


/// Bit `i` of the value of a little-endian byte sequence is bit `i % 8` of byte `i / 8`.
pub proof fn lemma_le_bytes_val_bit(s: Seq<u8>, i: nat)
    requires
        i < 8 * s.len(),
    ensures
        (le_bytes_val(s) / pow2(i)) % 2 == ((s[(i / 8) as int] as nat) / pow2(i % 8)) % 2,
    decreases s.len(),
{
    let r = le_bytes_val(s.drop_first());
    let s0 = s[0] as nat;
    let x = le_bytes_val(s);
    assert(x == s0 + 256 * r);
    lemma2_to64();
    vstd::arithmetic::power2::lemma_pow2_pos(i);
    if i >= 8 {
        let j = (i - 8) as nat;
        vstd::arithmetic::power2::lemma_pow2_adds(8, j);
        vstd::arithmetic::power2::lemma_pow2_pos(j);
        assert(pow2(i) == 256 * pow2(j));
        vstd::arithmetic::div_mod::lemma_div_denominator(x as int, 256, pow2(j) as int);
        vstd::arithmetic::div_mod::lemma_fundamental_div_mod_converse(x as int, 256, r as int, s0 as int);
        assert(x / 256 == r);
        lemma_le_bytes_val_bit(s.drop_first(), j);
        assert(j / 8 == i / 8 - 1);
        assert(j % 8 == i % 8);
        assert(s.drop_first()[(j / 8) as int] == s[(i / 8) as int]);
    } else {
        let m = pow2(i) as int;
        let e = pow2((8 - i) as nat) as int;
        let e1 = pow2((7 - i) as nat) as int;
        vstd::arithmetic::power2::lemma_pow2_adds(i, (8 - i) as nat);
        vstd::arithmetic::power2::lemma_pow2_adds(1, (7 - i) as nat);
        assert(256 == m * e);
        assert(e == 2 * e1);
        let q = s0 as int / m;
        let rr = s0 as int % m;
        vstd::arithmetic::div_mod::lemma_fundamental_div_mod(s0 as int, m);
        assert(x == m * (e * r + q) + rr) by (nonlinear_arith)
            requires
                x == s0 + 256 * r,
                256 == m * e,
                s0 == m * q + rr,
        ;
        vstd::arithmetic::div_mod::lemma_fundamental_div_mod_converse(x as int, m, e * r + q, rr);
        assert(e * r + q == 2 * (e1 * r) + q) by (nonlinear_arith)
            requires
                e == 2 * e1,
        ;
        vstd::arithmetic::div_mod::lemma_mod_multiples_vanish(e1 * r, q, 2);
        assert(i / 8 == 0);
        assert(i % 8 == i);
    }
}

/// Bit `b` of byte `j` of the little-endian bytes of `v` is bit `8 j + b` of `v`.
pub proof fn lemma_nat_le_bytes_bit(v: nat, n: nat, j: nat, b: nat)
    requires
        j < n,
        b < 8,
    ensures
        ((nat_le_bytes(v, n)[j as int] as nat) / pow2(b)) % 2 == (v / pow2(8 * j + b)) % 2,
{
    lemma2_to64();
    let y = v / pow2(8 * j);
    vstd::arithmetic::power2::lemma_pow2_pos(8 * j);
    vstd::arithmetic::power2::lemma_pow2_pos(b);
    assert(nat_le_bytes(v, n)[j as int] as nat == y % 256);
    lemma_mod_pow2_bit(y, 8, b);
    vstd::arithmetic::div_mod::lemma_div_denominator(v as int, pow2(8 * j) as int, pow2(b) as int);
    vstd::arithmetic::power2::lemma_pow2_adds(8 * j, b);
}

/// Bit `i` of a word of `nb` bytes with its bytes reversed is bit `8 (nb - 1 - i / 8) + i % 8`
/// of the word.
pub proof fn lemma_byte_swap_bit(v: nat, nb: nat, i: nat)
    requires
        i < 8 * nb,
    ensures
        (le_bytes_val(nat_le_bytes(v, nb).reverse()) / pow2(i)) % 2
            == (v / pow2((8 * (nb - 1 - i / 8) + i % 8) as nat)) % 2,
{
    let s = nat_le_bytes(v, nb).reverse();
    lemma_le_bytes_val_bit(s, i);
    let j = (nb - 1 - i / 8) as nat;
    assert(s[(i / 8) as int] == nat_le_bytes(v, nb)[j as int]);
    lemma_nat_le_bytes_bit(v, nb, j, i % 8);
}

} // verus!
