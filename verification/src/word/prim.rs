//! Implementations of [Word] for the primitive unsigned integer types.
use crate::word::bitseq::{seq_and, seq_not, seq_or, seq_shl, seq_shr, seq_xor};
use crate::word::word::Word;
use crate::word::words::Words;
use vstd::arithmetic::power2::{lemma2_to64, lemma2_to64_rest, lemma_pow2_adds, pow2};
use vstd::prelude::*;

verus! {

/// Reduction modulo `m` of a number below `2 * m`.
pub proof fn lemma_mod_wrap(t: int, m: int)
    requires
        0 <= t < 2 * m,
        m > 0,
    ensures
        t % m == if t >= m {
            t - m
        } else {
            t
        },
{
    if t >= m {
        vstd::arithmetic::div_mod::lemma_fundamental_div_mod_converse(t, m, 1, t - m);
    } else {
        vstd::arithmetic::div_mod::lemma_fundamental_div_mod_converse(t, m, 0, t);
    }
}

/// The powers of two at the word widths.
pub proof fn lemma_pow2_widths()
    ensures
        pow2(8) == 0x100,
        pow2(16) == 0x1_0000,
        pow2(32) == 0x1_0000_0000,
        pow2(64) == 0x1_0000_0000_0000_0000,
        pow2(128) == 0x1_0000_0000_0000_0000_0000_0000_0000_0000int,
{
    lemma2_to64();
    lemma2_to64_rest();
    lemma_pow2_adds(64, 64);
}


impl Word for u8 {
    open spec fn spec_width() -> nat {
        8
    }

    open spec fn bits(self) -> Seq<bool> {
        Seq::new(8, |i: int| (self >> (i as u8)) & 1 == 1)
    }

    open spec fn value(self) -> nat {
        self as nat
    }

    proof fn lemma_repr(self) {
        lemma_pow2_widths();
        assert forall|i: int| 0 <= i < 8 implies #[trigger] self.bits()[i] == ((self.value()
            / pow2(i as nat)) % 2 == 1) by {
            vstd::bits::lemma_u8_shr_is_div(self, i as u8);
            lemma_u8_bits(self >> (i as u8), 0, 0, 0);
        }
    }

    proof fn lemma_injective(a: Self, b: Self) {
    }

    fn width() -> (w: usize) {
        proof {
            assert(Self::spec_width() == 8);
        }
        8
    }

    fn zero() -> (r: Self) {
        0
    }

    fn one() -> (r: Self) {
        1
    }

    fn max_word() -> (r: Self) {
        proof {
            lemma_pow2_widths();
        }
        u8::MAX
    }

    fn not(self) -> (r: Self) {
        let r = !self;
        proof {
            assert forall|i: int| 0 <= i < 8 implies #[trigger] r.bits()[i] == seq_not(
                self.bits(),
            )[i] by {
                lemma_u8_bits(self, 0, i as u8, 0);
            }
            assert(r.bits() =~= seq_not(self.bits()));
        }
        r
    }

    fn bitxor(self, rhs: Self) -> (r: Self) {
        let r = self ^ rhs;
        proof {
            assert forall|i: int| 0 <= i < 8 implies #[trigger] r.bits()[i] == seq_xor(
                self.bits(),
                rhs.bits(),
            )[i] by {
                lemma_u8_bits(self, rhs, i as u8, 0);
            }
            assert(r.bits() =~= seq_xor(self.bits(), rhs.bits()));
        }
        r
    }

    fn bitand(self, rhs: Self) -> (r: Self) {
        let r = self & rhs;
        proof {
            assert forall|i: int| 0 <= i < 8 implies #[trigger] r.bits()[i] == seq_and(
                self.bits(),
                rhs.bits(),
            )[i] by {
                lemma_u8_bits(self, rhs, i as u8, 0);
            }
            assert(r.bits() =~= seq_and(self.bits(), rhs.bits()));
        }
        r
    }

    fn bitor(self, rhs: Self) -> (r: Self) {
        let r = self | rhs;
        proof {
            assert forall|i: int| 0 <= i < 8 implies #[trigger] r.bits()[i] == seq_or(
                self.bits(),
                rhs.bits(),
            )[i] by {
                lemma_u8_bits(self, rhs, i as u8, 0);
            }
            assert(r.bits() =~= seq_or(self.bits(), rhs.bits()));
        }
        r
    }

    fn unbounded_shl(self, shift: usize) -> (r: Self) {
        if shift >= 8 {
            proof {
                assert forall|i: int| 0 <= i < 8 implies #[trigger] (0 as u8).bits()[i] == seq_shl(
                    self.bits(),
                    shift as int,
                )[i] by {
                    lemma_u8_bits(self, 0, i as u8, 0);
                }
                assert((0 as u8).bits() =~= seq_shl(self.bits(), shift as int));
            }
            return 0;
        }
        let r = self << (shift as u8);
        proof {
            assert forall|i: int| 0 <= i < 8 implies #[trigger] r.bits()[i] == seq_shl(
                self.bits(),
                shift as int,
            )[i] by {
                lemma_u8_bits(self, 0, i as u8, shift as u8);
            }
            assert(r.bits() =~= seq_shl(self.bits(), shift as int));
        }
        r
    }

    fn unbounded_shr(self, shift: usize) -> (r: Self) {
        if shift >= 8 {
            proof {
                assert forall|i: int| 0 <= i < 8 implies #[trigger] (0 as u8).bits()[i] == seq_shr(
                    self.bits(),
                    shift as int,
                )[i] by {
                    lemma_u8_bits(self, 0, i as u8, 0);
                }
                assert((0 as u8).bits() =~= seq_shr(self.bits(), shift as int));
            }
            return 0;
        }
        let r = self >> (shift as u8);
        proof {
            assert forall|i: int| 0 <= i < 8 implies #[trigger] r.bits()[i] == seq_shr(
                self.bits(),
                shift as int,
            )[i] by {
                lemma_u8_bits(self, 0, i as u8, shift as u8);
            }
            assert(r.bits() =~= seq_shr(self.bits(), shift as int));
        }
        r
    }

    fn wrapping_neg(self) -> (r: Self) {
        proof {
            lemma_pow2_widths();
            lemma_mod_wrap(pow2(8) as int - self, pow2(8) as int);
        }
        (0 as u8).wrapping_sub(self)
    }

    fn wrapping_add(self, rhs: Self) -> (r: Self) {
        proof {
            lemma_pow2_widths();
            lemma_mod_wrap(self + rhs, pow2(8) as int);
        }
        self.wrapping_add(rhs)
    }

    fn overflowing_add(self, rhs: Self) -> (r: (Self, bool)) {
        proof {
            lemma_pow2_widths();
            lemma_mod_wrap(self + rhs, pow2(8) as int);
        }
        let r = self.wrapping_add(rhs);
        (r, r < self)
    }

    fn wrapping_sub(self, rhs: Self) -> (r: Self) {
        proof {
            lemma_pow2_widths();
            lemma_mod_wrap(self + pow2(8) as int - rhs, pow2(8) as int);
        }
        self.wrapping_sub(rhs)
    }

    fn overflowing_sub(self, rhs: Self) -> (r: (Self, bool)) {
        proof {
            lemma_pow2_widths();
            lemma_mod_wrap(self + pow2(8) as int - rhs, pow2(8) as int);
        }
        (self.wrapping_sub(rhs), self < rhs)
    }

    fn wrapping_mul(self, rhs: Self) -> (r: Self) {
        proof {
            lemma_pow2_widths();
        }
        self.wrapping_mul(rhs)
    }

    fn le(self, rhs: Self) -> (r: bool) {
        self <= rhs
    }

    fn lt(self, rhs: Self) -> (r: bool) {
        self < rhs
    }

    fn ge(self, rhs: Self) -> (r: bool) {
        self >= rhs
    }

    fn gt(self, rhs: Self) -> (r: bool) {
        self > rhs
    }

    fn eq(self, rhs: Self) -> (r: bool) {
        self == rhs
    }

    fn ne(self, rhs: Self) -> (r: bool) {
        self != rhs
    }

    fn cast_to_umax(self) -> (r: u128) {
        self as u128
    }

    fn cast_from_umax(value: u128) -> (r: Self) {
        proof {
            lemma_pow2_widths();
            lemma_u8_cast(value);
        }
        value as u8
    }

    open spec fn vec_in(store: Words) -> Vec<Self> {
        store.u8
    }

    open spec fn with_vec(store: Words, v: Vec<Self>) -> Words {
        Words { u8: v, ..store }
    }

    proof fn lemma_with_vec(store: Words, v: Vec<Self>) {
        assert(store.vals(8) =~= store.u8@.map_values(|x: Self| x.value()));
    }

    fn vec_from_words(store: &Words) -> (r: &Vec<Self>) {
        &store.u8
    }

    fn vec_mut_from_words(store: &mut Words) -> (r: &mut Vec<Self>) {
        &mut store.u8
    }
}

/// Bit-level facts about the operations on the word type.
proof fn lemma_u8_bits(a: u8, b: u8, i: u8, s: u8)
    by (bit_vector)
    requires
        i < 8,
        s < 8,
    ensures
        ((a & 1) == 1) == (a % 2 == 1),
        ((!a >> i) & 1 == 1) == !((a >> i) & 1 == 1),
        (((a ^ b) >> i) & 1 == 1) == (((a >> i) & 1 == 1) != ((b >> i) & 1 == 1)),
        (((a & b) >> i) & 1 == 1) == (((a >> i) & 1 == 1) && ((b >> i) & 1 == 1)),
        (((a | b) >> i) & 1 == 1) == (((a >> i) & 1 == 1) || ((b >> i) & 1 == 1)),
        (((a << s) >> i) & 1 == 1) == (i >= s && ((a >> ((i - s) as u8)) & 1 == 1)),
        (((a >> s) >> i) & 1 == 1) == (i + s < 8 && ((a >> ((i + s) as u8)) & 1 == 1)),
        ((0 as u8 >> i) & 1 == 1) == false,
{
}


proof fn lemma_u8_cast(v: u128)
    by (bit_vector)
    ensures
        (v as u8) == v % 0x100,
{
}

impl Word for u16 {
    open spec fn spec_width() -> nat {
        16
    }

    open spec fn bits(self) -> Seq<bool> {
        Seq::new(16, |i: int| (self >> (i as u16)) & 1 == 1)
    }

    open spec fn value(self) -> nat {
        self as nat
    }

    proof fn lemma_repr(self) {
        lemma_pow2_widths();
        assert forall|i: int| 0 <= i < 16 implies #[trigger] self.bits()[i] == ((self.value()
            / pow2(i as nat)) % 2 == 1) by {
            vstd::bits::lemma_u16_shr_is_div(self, i as u16);
            lemma_u16_bits(self >> (i as u16), 0, 0, 0);
        }
    }

    proof fn lemma_injective(a: Self, b: Self) {
    }

    fn width() -> (w: usize) {
        proof {
            assert(Self::spec_width() == 16);
        }
        16
    }

    fn zero() -> (r: Self) {
        0
    }

    fn one() -> (r: Self) {
        1
    }

    fn max_word() -> (r: Self) {
        proof {
            lemma_pow2_widths();
        }
        u16::MAX
    }

    fn not(self) -> (r: Self) {
        let r = !self;
        proof {
            assert forall|i: int| 0 <= i < 16 implies #[trigger] r.bits()[i] == seq_not(
                self.bits(),
            )[i] by {
                lemma_u16_bits(self, 0, i as u16, 0);
            }
            assert(r.bits() =~= seq_not(self.bits()));
        }
        r
    }

    fn bitxor(self, rhs: Self) -> (r: Self) {
        let r = self ^ rhs;
        proof {
            assert forall|i: int| 0 <= i < 16 implies #[trigger] r.bits()[i] == seq_xor(
                self.bits(),
                rhs.bits(),
            )[i] by {
                lemma_u16_bits(self, rhs, i as u16, 0);
            }
            assert(r.bits() =~= seq_xor(self.bits(), rhs.bits()));
        }
        r
    }

    fn bitand(self, rhs: Self) -> (r: Self) {
        let r = self & rhs;
        proof {
            assert forall|i: int| 0 <= i < 16 implies #[trigger] r.bits()[i] == seq_and(
                self.bits(),
                rhs.bits(),
            )[i] by {
                lemma_u16_bits(self, rhs, i as u16, 0);
            }
            assert(r.bits() =~= seq_and(self.bits(), rhs.bits()));
        }
        r
    }

    fn bitor(self, rhs: Self) -> (r: Self) {
        let r = self | rhs;
        proof {
            assert forall|i: int| 0 <= i < 16 implies #[trigger] r.bits()[i] == seq_or(
                self.bits(),
                rhs.bits(),
            )[i] by {
                lemma_u16_bits(self, rhs, i as u16, 0);
            }
            assert(r.bits() =~= seq_or(self.bits(), rhs.bits()));
        }
        r
    }

    fn unbounded_shl(self, shift: usize) -> (r: Self) {
        if shift >= 16 {
            proof {
                assert forall|i: int| 0 <= i < 16 implies #[trigger] (0 as u16).bits()[i] == seq_shl(
                    self.bits(),
                    shift as int,
                )[i] by {
                    lemma_u16_bits(self, 0, i as u16, 0);
                }
                assert((0 as u16).bits() =~= seq_shl(self.bits(), shift as int));
            }
            return 0;
        }
        let r = self << (shift as u16);
        proof {
            assert forall|i: int| 0 <= i < 16 implies #[trigger] r.bits()[i] == seq_shl(
                self.bits(),
                shift as int,
            )[i] by {
                lemma_u16_bits(self, 0, i as u16, shift as u16);
            }
            assert(r.bits() =~= seq_shl(self.bits(), shift as int));
        }
        r
    }

    fn unbounded_shr(self, shift: usize) -> (r: Self) {
        if shift >= 16 {
            proof {
                assert forall|i: int| 0 <= i < 16 implies #[trigger] (0 as u16).bits()[i] == seq_shr(
                    self.bits(),
                    shift as int,
                )[i] by {
                    lemma_u16_bits(self, 0, i as u16, 0);
                }
                assert((0 as u16).bits() =~= seq_shr(self.bits(), shift as int));
            }
            return 0;
        }
        let r = self >> (shift as u16);
        proof {
            assert forall|i: int| 0 <= i < 16 implies #[trigger] r.bits()[i] == seq_shr(
                self.bits(),
                shift as int,
            )[i] by {
                lemma_u16_bits(self, 0, i as u16, shift as u16);
            }
            assert(r.bits() =~= seq_shr(self.bits(), shift as int));
        }
        r
    }

    fn wrapping_neg(self) -> (r: Self) {
        proof {
            lemma_pow2_widths();
            lemma_mod_wrap(pow2(16) as int - self, pow2(16) as int);
        }
        (0 as u16).wrapping_sub(self)
    }

    fn wrapping_add(self, rhs: Self) -> (r: Self) {
        proof {
            lemma_pow2_widths();
            lemma_mod_wrap(self + rhs, pow2(16) as int);
        }
        self.wrapping_add(rhs)
    }

    fn overflowing_add(self, rhs: Self) -> (r: (Self, bool)) {
        proof {
            lemma_pow2_widths();
            lemma_mod_wrap(self + rhs, pow2(16) as int);
        }
        let r = self.wrapping_add(rhs);
        (r, r < self)
    }

    fn wrapping_sub(self, rhs: Self) -> (r: Self) {
        proof {
            lemma_pow2_widths();
            lemma_mod_wrap(self + pow2(16) as int - rhs, pow2(16) as int);
        }
        self.wrapping_sub(rhs)
    }

    fn overflowing_sub(self, rhs: Self) -> (r: (Self, bool)) {
        proof {
            lemma_pow2_widths();
            lemma_mod_wrap(self + pow2(16) as int - rhs, pow2(16) as int);
        }
        (self.wrapping_sub(rhs), self < rhs)
    }

    fn wrapping_mul(self, rhs: Self) -> (r: Self) {
        proof {
            lemma_pow2_widths();
        }
        self.wrapping_mul(rhs)
    }

    fn le(self, rhs: Self) -> (r: bool) {
        self <= rhs
    }

    fn lt(self, rhs: Self) -> (r: bool) {
        self < rhs
    }

    fn ge(self, rhs: Self) -> (r: bool) {
        self >= rhs
    }

    fn gt(self, rhs: Self) -> (r: bool) {
        self > rhs
    }

    fn eq(self, rhs: Self) -> (r: bool) {
        self == rhs
    }

    fn ne(self, rhs: Self) -> (r: bool) {
        self != rhs
    }

    fn cast_to_umax(self) -> (r: u128) {
        self as u128
    }

    fn cast_from_umax(value: u128) -> (r: Self) {
        proof {
            lemma_pow2_widths();
            lemma_u16_cast(value);
        }
        value as u16
    }

    open spec fn vec_in(store: Words) -> Vec<Self> {
        store.u16
    }

    open spec fn with_vec(store: Words, v: Vec<Self>) -> Words {
        Words { u16: v, ..store }
    }

    proof fn lemma_with_vec(store: Words, v: Vec<Self>) {
        assert(store.vals(16) =~= store.u16@.map_values(|x: Self| x.value()));
    }

    fn vec_from_words(store: &Words) -> (r: &Vec<Self>) {
        &store.u16
    }

    fn vec_mut_from_words(store: &mut Words) -> (r: &mut Vec<Self>) {
        &mut store.u16
    }
}

/// Bit-level facts about the operations on the word type.
proof fn lemma_u16_bits(a: u16, b: u16, i: u16, s: u16)
    by (bit_vector)
    requires
        i < 16,
        s < 16,
    ensures
        ((a & 1) == 1) == (a % 2 == 1),
        ((!a >> i) & 1 == 1) == !((a >> i) & 1 == 1),
        (((a ^ b) >> i) & 1 == 1) == (((a >> i) & 1 == 1) != ((b >> i) & 1 == 1)),
        (((a & b) >> i) & 1 == 1) == (((a >> i) & 1 == 1) && ((b >> i) & 1 == 1)),
        (((a | b) >> i) & 1 == 1) == (((a >> i) & 1 == 1) || ((b >> i) & 1 == 1)),
        (((a << s) >> i) & 1 == 1) == (i >= s && ((a >> ((i - s) as u16)) & 1 == 1)),
        (((a >> s) >> i) & 1 == 1) == (i + s < 16 && ((a >> ((i + s) as u16)) & 1 == 1)),
        ((0 as u16 >> i) & 1 == 1) == false,
{
}


proof fn lemma_u16_cast(v: u128)
    by (bit_vector)
    ensures
        (v as u16) == v % 0x10000,
{
}

impl Word for u32 {
    open spec fn spec_width() -> nat {
        32
    }

    open spec fn bits(self) -> Seq<bool> {
        Seq::new(32, |i: int| (self >> (i as u32)) & 1 == 1)
    }

    open spec fn value(self) -> nat {
        self as nat
    }

    proof fn lemma_repr(self) {
        lemma_pow2_widths();
        assert forall|i: int| 0 <= i < 32 implies #[trigger] self.bits()[i] == ((self.value()
            / pow2(i as nat)) % 2 == 1) by {
            vstd::bits::lemma_u32_shr_is_div(self, i as u32);
            lemma_u32_bits(self >> (i as u32), 0, 0, 0);
        }
    }

    proof fn lemma_injective(a: Self, b: Self) {
    }

    fn width() -> (w: usize) {
        proof {
            assert(Self::spec_width() == 32);
        }
        32
    }

    fn zero() -> (r: Self) {
        0
    }

    fn one() -> (r: Self) {
        1
    }

    fn max_word() -> (r: Self) {
        proof {
            lemma_pow2_widths();
        }
        u32::MAX
    }

    fn not(self) -> (r: Self) {
        let r = !self;
        proof {
            assert forall|i: int| 0 <= i < 32 implies #[trigger] r.bits()[i] == seq_not(
                self.bits(),
            )[i] by {
                lemma_u32_bits(self, 0, i as u32, 0);
            }
            assert(r.bits() =~= seq_not(self.bits()));
        }
        r
    }

    fn bitxor(self, rhs: Self) -> (r: Self) {
        let r = self ^ rhs;
        proof {
            assert forall|i: int| 0 <= i < 32 implies #[trigger] r.bits()[i] == seq_xor(
                self.bits(),
                rhs.bits(),
            )[i] by {
                lemma_u32_bits(self, rhs, i as u32, 0);
            }
            assert(r.bits() =~= seq_xor(self.bits(), rhs.bits()));
        }
        r
    }

    fn bitand(self, rhs: Self) -> (r: Self) {
        let r = self & rhs;
        proof {
            assert forall|i: int| 0 <= i < 32 implies #[trigger] r.bits()[i] == seq_and(
                self.bits(),
                rhs.bits(),
            )[i] by {
                lemma_u32_bits(self, rhs, i as u32, 0);
            }
            assert(r.bits() =~= seq_and(self.bits(), rhs.bits()));
        }
        r
    }

    fn bitor(self, rhs: Self) -> (r: Self) {
        let r = self | rhs;
        proof {
            assert forall|i: int| 0 <= i < 32 implies #[trigger] r.bits()[i] == seq_or(
                self.bits(),
                rhs.bits(),
            )[i] by {
                lemma_u32_bits(self, rhs, i as u32, 0);
            }
            assert(r.bits() =~= seq_or(self.bits(), rhs.bits()));
        }
        r
    }

    fn unbounded_shl(self, shift: usize) -> (r: Self) {
        if shift >= 32 {
            proof {
                assert forall|i: int| 0 <= i < 32 implies #[trigger] (0 as u32).bits()[i] == seq_shl(
                    self.bits(),
                    shift as int,
                )[i] by {
                    lemma_u32_bits(self, 0, i as u32, 0);
                }
                assert((0 as u32).bits() =~= seq_shl(self.bits(), shift as int));
            }
            return 0;
        }
        let r = self << (shift as u32);
        proof {
            assert forall|i: int| 0 <= i < 32 implies #[trigger] r.bits()[i] == seq_shl(
                self.bits(),
                shift as int,
            )[i] by {
                lemma_u32_bits(self, 0, i as u32, shift as u32);
            }
            assert(r.bits() =~= seq_shl(self.bits(), shift as int));
        }
        r
    }

    fn unbounded_shr(self, shift: usize) -> (r: Self) {
        if shift >= 32 {
            proof {
                assert forall|i: int| 0 <= i < 32 implies #[trigger] (0 as u32).bits()[i] == seq_shr(
                    self.bits(),
                    shift as int,
                )[i] by {
                    lemma_u32_bits(self, 0, i as u32, 0);
                }
                assert((0 as u32).bits() =~= seq_shr(self.bits(), shift as int));
            }
            return 0;
        }
        let r = self >> (shift as u32);
        proof {
            assert forall|i: int| 0 <= i < 32 implies #[trigger] r.bits()[i] == seq_shr(
                self.bits(),
                shift as int,
            )[i] by {
                lemma_u32_bits(self, 0, i as u32, shift as u32);
            }
            assert(r.bits() =~= seq_shr(self.bits(), shift as int));
        }
        r
    }

    fn wrapping_neg(self) -> (r: Self) {
        proof {
            lemma_pow2_widths();
            lemma_mod_wrap(pow2(32) as int - self, pow2(32) as int);
        }
        (0 as u32).wrapping_sub(self)
    }

    fn wrapping_add(self, rhs: Self) -> (r: Self) {
        proof {
            lemma_pow2_widths();
            lemma_mod_wrap(self + rhs, pow2(32) as int);
        }
        self.wrapping_add(rhs)
    }

    fn overflowing_add(self, rhs: Self) -> (r: (Self, bool)) {
        proof {
            lemma_pow2_widths();
            lemma_mod_wrap(self + rhs, pow2(32) as int);
        }
        let r = self.wrapping_add(rhs);
        (r, r < self)
    }

    fn wrapping_sub(self, rhs: Self) -> (r: Self) {
        proof {
            lemma_pow2_widths();
            lemma_mod_wrap(self + pow2(32) as int - rhs, pow2(32) as int);
        }
        self.wrapping_sub(rhs)
    }

    fn overflowing_sub(self, rhs: Self) -> (r: (Self, bool)) {
        proof {
            lemma_pow2_widths();
            lemma_mod_wrap(self + pow2(32) as int - rhs, pow2(32) as int);
        }
        (self.wrapping_sub(rhs), self < rhs)
    }

    fn wrapping_mul(self, rhs: Self) -> (r: Self) {
        proof {
            lemma_pow2_widths();
        }
        self.wrapping_mul(rhs)
    }

    fn le(self, rhs: Self) -> (r: bool) {
        self <= rhs
    }

    fn lt(self, rhs: Self) -> (r: bool) {
        self < rhs
    }

    fn ge(self, rhs: Self) -> (r: bool) {
        self >= rhs
    }

    fn gt(self, rhs: Self) -> (r: bool) {
        self > rhs
    }

    fn eq(self, rhs: Self) -> (r: bool) {
        self == rhs
    }

    fn ne(self, rhs: Self) -> (r: bool) {
        self != rhs
    }

    fn cast_to_umax(self) -> (r: u128) {
        self as u128
    }

    fn cast_from_umax(value: u128) -> (r: Self) {
        proof {
            lemma_pow2_widths();
            lemma_u32_cast(value);
        }
        value as u32
    }

    open spec fn vec_in(store: Words) -> Vec<Self> {
        store.u32
    }

    open spec fn with_vec(store: Words, v: Vec<Self>) -> Words {
        Words { u32: v, ..store }
    }

    proof fn lemma_with_vec(store: Words, v: Vec<Self>) {
        assert(store.vals(32) =~= store.u32@.map_values(|x: Self| x.value()));
    }

    fn vec_from_words(store: &Words) -> (r: &Vec<Self>) {
        &store.u32
    }

    fn vec_mut_from_words(store: &mut Words) -> (r: &mut Vec<Self>) {
        &mut store.u32
    }
}

/// Bit-level facts about the operations on the word type.
proof fn lemma_u32_bits(a: u32, b: u32, i: u32, s: u32)
    by (bit_vector)
    requires
        i < 32,
        s < 32,
    ensures
        ((a & 1) == 1) == (a % 2 == 1),
        ((!a >> i) & 1 == 1) == !((a >> i) & 1 == 1),
        (((a ^ b) >> i) & 1 == 1) == (((a >> i) & 1 == 1) != ((b >> i) & 1 == 1)),
        (((a & b) >> i) & 1 == 1) == (((a >> i) & 1 == 1) && ((b >> i) & 1 == 1)),
        (((a | b) >> i) & 1 == 1) == (((a >> i) & 1 == 1) || ((b >> i) & 1 == 1)),
        (((a << s) >> i) & 1 == 1) == (i >= s && ((a >> ((i - s) as u32)) & 1 == 1)),
        (((a >> s) >> i) & 1 == 1) == (i + s < 32 && ((a >> ((i + s) as u32)) & 1 == 1)),
        ((0 as u32 >> i) & 1 == 1) == false,
{
}


proof fn lemma_u32_cast(v: u128)
    by (bit_vector)
    ensures
        (v as u32) == v % 0x100000000,
{
}

impl Word for u64 {
    open spec fn spec_width() -> nat {
        64
    }

    open spec fn bits(self) -> Seq<bool> {
        Seq::new(64, |i: int| (self >> (i as u64)) & 1 == 1)
    }

    open spec fn value(self) -> nat {
        self as nat
    }

    proof fn lemma_repr(self) {
        lemma_pow2_widths();
        assert forall|i: int| 0 <= i < 64 implies #[trigger] self.bits()[i] == ((self.value()
            / pow2(i as nat)) % 2 == 1) by {
            vstd::bits::lemma_u64_shr_is_div(self, i as u64);
            lemma_u64_bits(self >> (i as u64), 0, 0, 0);
        }
    }

    proof fn lemma_injective(a: Self, b: Self) {
    }

    fn width() -> (w: usize) {
        proof {
            assert(Self::spec_width() == 64);
        }
        64
    }

    fn zero() -> (r: Self) {
        0
    }

    fn one() -> (r: Self) {
        1
    }

    fn max_word() -> (r: Self) {
        proof {
            lemma_pow2_widths();
        }
        u64::MAX
    }

    fn not(self) -> (r: Self) {
        let r = !self;
        proof {
            assert forall|i: int| 0 <= i < 64 implies #[trigger] r.bits()[i] == seq_not(
                self.bits(),
            )[i] by {
                lemma_u64_bits(self, 0, i as u64, 0);
            }
            assert(r.bits() =~= seq_not(self.bits()));
        }
        r
    }

    fn bitxor(self, rhs: Self) -> (r: Self) {
        let r = self ^ rhs;
        proof {
            assert forall|i: int| 0 <= i < 64 implies #[trigger] r.bits()[i] == seq_xor(
                self.bits(),
                rhs.bits(),
            )[i] by {
                lemma_u64_bits(self, rhs, i as u64, 0);
            }
            assert(r.bits() =~= seq_xor(self.bits(), rhs.bits()));
        }
        r
    }

    fn bitand(self, rhs: Self) -> (r: Self) {
        let r = self & rhs;
        proof {
            assert forall|i: int| 0 <= i < 64 implies #[trigger] r.bits()[i] == seq_and(
                self.bits(),
                rhs.bits(),
            )[i] by {
                lemma_u64_bits(self, rhs, i as u64, 0);
            }
            assert(r.bits() =~= seq_and(self.bits(), rhs.bits()));
        }
        r
    }

    fn bitor(self, rhs: Self) -> (r: Self) {
        let r = self | rhs;
        proof {
            assert forall|i: int| 0 <= i < 64 implies #[trigger] r.bits()[i] == seq_or(
                self.bits(),
                rhs.bits(),
            )[i] by {
                lemma_u64_bits(self, rhs, i as u64, 0);
            }
            assert(r.bits() =~= seq_or(self.bits(), rhs.bits()));
        }
        r
    }

    fn unbounded_shl(self, shift: usize) -> (r: Self) {
        if shift >= 64 {
            proof {
                assert forall|i: int| 0 <= i < 64 implies #[trigger] (0 as u64).bits()[i] == seq_shl(
                    self.bits(),
                    shift as int,
                )[i] by {
                    lemma_u64_bits(self, 0, i as u64, 0);
                }
                assert((0 as u64).bits() =~= seq_shl(self.bits(), shift as int));
            }
            return 0;
        }
        let r = self << (shift as u64);
        proof {
            assert forall|i: int| 0 <= i < 64 implies #[trigger] r.bits()[i] == seq_shl(
                self.bits(),
                shift as int,
            )[i] by {
                lemma_u64_bits(self, 0, i as u64, shift as u64);
            }
            assert(r.bits() =~= seq_shl(self.bits(), shift as int));
        }
        r
    }

    fn unbounded_shr(self, shift: usize) -> (r: Self) {
        if shift >= 64 {
            proof {
                assert forall|i: int| 0 <= i < 64 implies #[trigger] (0 as u64).bits()[i] == seq_shr(
                    self.bits(),
                    shift as int,
                )[i] by {
                    lemma_u64_bits(self, 0, i as u64, 0);
                }
                assert((0 as u64).bits() =~= seq_shr(self.bits(), shift as int));
            }
            return 0;
        }
        let r = self >> (shift as u64);
        proof {
            assert forall|i: int| 0 <= i < 64 implies #[trigger] r.bits()[i] == seq_shr(
                self.bits(),
                shift as int,
            )[i] by {
                lemma_u64_bits(self, 0, i as u64, shift as u64);
            }
            assert(r.bits() =~= seq_shr(self.bits(), shift as int));
        }
        r
    }

    fn wrapping_neg(self) -> (r: Self) {
        proof {
            lemma_pow2_widths();
            lemma_mod_wrap(pow2(64) as int - self, pow2(64) as int);
        }
        (0 as u64).wrapping_sub(self)
    }

    fn wrapping_add(self, rhs: Self) -> (r: Self) {
        proof {
            lemma_pow2_widths();
            lemma_mod_wrap(self + rhs, pow2(64) as int);
        }
        self.wrapping_add(rhs)
    }

    fn overflowing_add(self, rhs: Self) -> (r: (Self, bool)) {
        proof {
            lemma_pow2_widths();
            lemma_mod_wrap(self + rhs, pow2(64) as int);
        }
        let r = self.wrapping_add(rhs);
        (r, r < self)
    }

    fn wrapping_sub(self, rhs: Self) -> (r: Self) {
        proof {
            lemma_pow2_widths();
            lemma_mod_wrap(self + pow2(64) as int - rhs, pow2(64) as int);
        }
        self.wrapping_sub(rhs)
    }

    fn overflowing_sub(self, rhs: Self) -> (r: (Self, bool)) {
        proof {
            lemma_pow2_widths();
            lemma_mod_wrap(self + pow2(64) as int - rhs, pow2(64) as int);
        }
        (self.wrapping_sub(rhs), self < rhs)
    }

    fn wrapping_mul(self, rhs: Self) -> (r: Self) {
        proof {
            lemma_pow2_widths();
        }
        self.wrapping_mul(rhs)
    }

    fn le(self, rhs: Self) -> (r: bool) {
        self <= rhs
    }

    fn lt(self, rhs: Self) -> (r: bool) {
        self < rhs
    }

    fn ge(self, rhs: Self) -> (r: bool) {
        self >= rhs
    }

    fn gt(self, rhs: Self) -> (r: bool) {
        self > rhs
    }

    fn eq(self, rhs: Self) -> (r: bool) {
        self == rhs
    }

    fn ne(self, rhs: Self) -> (r: bool) {
        self != rhs
    }

    fn cast_to_umax(self) -> (r: u128) {
        self as u128
    }

    fn cast_from_umax(value: u128) -> (r: Self) {
        proof {
            lemma_pow2_widths();
            lemma_u64_cast(value);
        }
        value as u64
    }

    open spec fn vec_in(store: Words) -> Vec<Self> {
        store.u64
    }

    open spec fn with_vec(store: Words, v: Vec<Self>) -> Words {
        Words { u64: v, ..store }
    }

    proof fn lemma_with_vec(store: Words, v: Vec<Self>) {
        assert(store.vals(64) =~= store.u64@.map_values(|x: Self| x.value()));
    }

    fn vec_from_words(store: &Words) -> (r: &Vec<Self>) {
        &store.u64
    }

    fn vec_mut_from_words(store: &mut Words) -> (r: &mut Vec<Self>) {
        &mut store.u64
    }
}

/// Bit-level facts about the operations on the word type.
proof fn lemma_u64_bits(a: u64, b: u64, i: u64, s: u64)
    by (bit_vector)
    requires
        i < 64,
        s < 64,
    ensures
        ((a & 1) == 1) == (a % 2 == 1),
        ((!a >> i) & 1 == 1) == !((a >> i) & 1 == 1),
        (((a ^ b) >> i) & 1 == 1) == (((a >> i) & 1 == 1) != ((b >> i) & 1 == 1)),
        (((a & b) >> i) & 1 == 1) == (((a >> i) & 1 == 1) && ((b >> i) & 1 == 1)),
        (((a | b) >> i) & 1 == 1) == (((a >> i) & 1 == 1) || ((b >> i) & 1 == 1)),
        (((a << s) >> i) & 1 == 1) == (i >= s && ((a >> ((i - s) as u64)) & 1 == 1)),
        (((a >> s) >> i) & 1 == 1) == (i + s < 64 && ((a >> ((i + s) as u64)) & 1 == 1)),
        ((0 as u64 >> i) & 1 == 1) == false,
{
}


proof fn lemma_u64_cast(v: u128)
    by (bit_vector)
    ensures
        (v as u64) == v % 0x10000000000000000,
{
}

impl Word for u128 {
    open spec fn spec_width() -> nat {
        128
    }

    open spec fn bits(self) -> Seq<bool> {
        Seq::new(128, |i: int| (self >> (i as u128)) & 1 == 1)
    }

    open spec fn value(self) -> nat {
        self as nat
    }

    proof fn lemma_repr(self) {
        lemma_pow2_widths();
        assert forall|i: int| 0 <= i < 128 implies #[trigger] self.bits()[i] == ((self.value()
            / pow2(i as nat)) % 2 == 1) by {
            vstd::bits::lemma_u128_shr_is_div(self, i as u128);
            lemma_u128_bits(self >> (i as u128), 0, 0, 0);
        }
    }

    proof fn lemma_injective(a: Self, b: Self) {
    }

    fn width() -> (w: usize) {
        proof {
            assert(Self::spec_width() == 128);
        }
        128
    }

    fn zero() -> (r: Self) {
        0
    }

    fn one() -> (r: Self) {
        1
    }

    fn max_word() -> (r: Self) {
        proof {
            lemma_pow2_widths();
        }
        u128::MAX
    }

    fn not(self) -> (r: Self) {
        let r = !self;
        proof {
            assert forall|i: int| 0 <= i < 128 implies #[trigger] r.bits()[i] == seq_not(
                self.bits(),
            )[i] by {
                lemma_u128_bits(self, 0, i as u128, 0);
            }
            assert(r.bits() =~= seq_not(self.bits()));
        }
        r
    }

    fn bitxor(self, rhs: Self) -> (r: Self) {
        let r = self ^ rhs;
        proof {
            assert forall|i: int| 0 <= i < 128 implies #[trigger] r.bits()[i] == seq_xor(
                self.bits(),
                rhs.bits(),
            )[i] by {
                lemma_u128_bits(self, rhs, i as u128, 0);
            }
            assert(r.bits() =~= seq_xor(self.bits(), rhs.bits()));
        }
        r
    }

    fn bitand(self, rhs: Self) -> (r: Self) {
        let r = self & rhs;
        proof {
            assert forall|i: int| 0 <= i < 128 implies #[trigger] r.bits()[i] == seq_and(
                self.bits(),
                rhs.bits(),
            )[i] by {
                lemma_u128_bits(self, rhs, i as u128, 0);
            }
            assert(r.bits() =~= seq_and(self.bits(), rhs.bits()));
        }
        r
    }

    fn bitor(self, rhs: Self) -> (r: Self) {
        let r = self | rhs;
        proof {
            assert forall|i: int| 0 <= i < 128 implies #[trigger] r.bits()[i] == seq_or(
                self.bits(),
                rhs.bits(),
            )[i] by {
                lemma_u128_bits(self, rhs, i as u128, 0);
            }
            assert(r.bits() =~= seq_or(self.bits(), rhs.bits()));
        }
        r
    }

    fn unbounded_shl(self, shift: usize) -> (r: Self) {
        if shift >= 128 {
            proof {
                assert forall|i: int| 0 <= i < 128 implies #[trigger] (0 as u128).bits()[i] == seq_shl(
                    self.bits(),
                    shift as int,
                )[i] by {
                    lemma_u128_bits(self, 0, i as u128, 0);
                }
                assert((0 as u128).bits() =~= seq_shl(self.bits(), shift as int));
            }
            return 0;
        }
        let r = self << (shift as u128);
        proof {
            assert forall|i: int| 0 <= i < 128 implies #[trigger] r.bits()[i] == seq_shl(
                self.bits(),
                shift as int,
            )[i] by {
                lemma_u128_bits(self, 0, i as u128, shift as u128);
            }
            assert(r.bits() =~= seq_shl(self.bits(), shift as int));
        }
        r
    }

    fn unbounded_shr(self, shift: usize) -> (r: Self) {
        if shift >= 128 {
            proof {
                assert forall|i: int| 0 <= i < 128 implies #[trigger] (0 as u128).bits()[i] == seq_shr(
                    self.bits(),
                    shift as int,
                )[i] by {
                    lemma_u128_bits(self, 0, i as u128, 0);
                }
                assert((0 as u128).bits() =~= seq_shr(self.bits(), shift as int));
            }
            return 0;
        }
        let r = self >> (shift as u128);
        proof {
            assert forall|i: int| 0 <= i < 128 implies #[trigger] r.bits()[i] == seq_shr(
                self.bits(),
                shift as int,
            )[i] by {
                lemma_u128_bits(self, 0, i as u128, shift as u128);
            }
            assert(r.bits() =~= seq_shr(self.bits(), shift as int));
        }
        r
    }

    fn wrapping_neg(self) -> (r: Self) {
        proof {
            lemma_pow2_widths();
            lemma_mod_wrap(pow2(128) as int - self, pow2(128) as int);
        }
        (0 as u128).wrapping_sub(self)
    }

    fn wrapping_add(self, rhs: Self) -> (r: Self) {
        proof {
            lemma_pow2_widths();
            lemma_mod_wrap(self + rhs, pow2(128) as int);
        }
        self.wrapping_add(rhs)
    }

    fn overflowing_add(self, rhs: Self) -> (r: (Self, bool)) {
        proof {
            lemma_pow2_widths();
            lemma_mod_wrap(self + rhs, pow2(128) as int);
        }
        let r = self.wrapping_add(rhs);
        (r, r < self)
    }

    fn wrapping_sub(self, rhs: Self) -> (r: Self) {
        proof {
            lemma_pow2_widths();
            lemma_mod_wrap(self + pow2(128) as int - rhs, pow2(128) as int);
        }
        self.wrapping_sub(rhs)
    }

    fn overflowing_sub(self, rhs: Self) -> (r: (Self, bool)) {
        proof {
            lemma_pow2_widths();
            lemma_mod_wrap(self + pow2(128) as int - rhs, pow2(128) as int);
        }
        (self.wrapping_sub(rhs), self < rhs)
    }

    fn wrapping_mul(self, rhs: Self) -> (r: Self) {
        proof {
            lemma_pow2_widths();
        }
        self.wrapping_mul(rhs)
    }

    fn le(self, rhs: Self) -> (r: bool) {
        self <= rhs
    }

    fn lt(self, rhs: Self) -> (r: bool) {
        self < rhs
    }

    fn ge(self, rhs: Self) -> (r: bool) {
        self >= rhs
    }

    fn gt(self, rhs: Self) -> (r: bool) {
        self > rhs
    }

    fn eq(self, rhs: Self) -> (r: bool) {
        self == rhs
    }

    fn ne(self, rhs: Self) -> (r: bool) {
        self != rhs
    }

    fn cast_to_umax(self) -> (r: u128) {
        self as u128
    }

    fn cast_from_umax(value: u128) -> (r: Self) {
        proof {
            lemma_pow2_widths();
            lemma_u128_cast(value);
        }
        value as u128
    }

    open spec fn vec_in(store: Words) -> Vec<Self> {
        store.u128
    }

    open spec fn with_vec(store: Words, v: Vec<Self>) -> Words {
        Words { u128: v, ..store }
    }

    proof fn lemma_with_vec(store: Words, v: Vec<Self>) {
        assert(store.vals(128) =~= store.u128@.map_values(|x: Self| x.value()));
    }

    fn vec_from_words(store: &Words) -> (r: &Vec<Self>) {
        &store.u128
    }

    fn vec_mut_from_words(store: &mut Words) -> (r: &mut Vec<Self>) {
        &mut store.u128
    }
}

/// Bit-level facts about the operations on the word type.
proof fn lemma_u128_bits(a: u128, b: u128, i: u128, s: u128)
    by (bit_vector)
    requires
        i < 128,
        s < 128,
    ensures
        ((a & 1) == 1) == (a % 2 == 1),
        ((!a >> i) & 1 == 1) == !((a >> i) & 1 == 1),
        (((a ^ b) >> i) & 1 == 1) == (((a >> i) & 1 == 1) != ((b >> i) & 1 == 1)),
        (((a & b) >> i) & 1 == 1) == (((a >> i) & 1 == 1) && ((b >> i) & 1 == 1)),
        (((a | b) >> i) & 1 == 1) == (((a >> i) & 1 == 1) || ((b >> i) & 1 == 1)),
        (((a << s) >> i) & 1 == 1) == (i >= s && ((a >> ((i - s) as u128)) & 1 == 1)),
        (((a >> s) >> i) & 1 == 1) == (i + s < 128 && ((a >> ((i + s) as u128)) & 1 == 1)),
        ((0 as u128 >> i) & 1 == 1) == false,
{
}


proof fn lemma_u128_cast(v: u128)
    ensures
        (v as u128) as nat == v as nat % 0x1_0000_0000_0000_0000_0000_0000_0000_0000nat,
{
}


} // verus!
