//! Values indexed by word type.
use crate::word::word::Word;
use vstd::prelude::*;

verus! {

/// The widths of the supported word types.
pub open spec fn is_word_width(w: nat) -> bool {
    w == 8 || w == 16 || w == 32 || w == 64 || w == 128
}

/// A value of type `T` for each supported word type.
#[derive(Clone, Copy, PartialEq, Eq, Structural, Debug)]
pub struct ByWordType<T> {
    /// Value for 8-bit words.
    pub u8: T,
    /// Value for 16-bit words.
    pub u16: T,
    /// Value for 32-bit words.
    pub u32: T,
    /// Value for 64-bit words.
    pub u64: T,
    /// Value for 128-bit words.
    pub u128: T,
}

/// Shape of a word container: the number of words of each type.
pub type Shape = ByWordType<usize>;

impl<T> ByWordType<T> {
    /// The value for the word type of the given width.
    pub open spec fn get(self, width: nat) -> T {
        if width == 8 {
            self.u8
        } else if width == 16 {
            self.u16
        } else if width == 32 {
            self.u32
        } else if width == 64 {
            self.u64
        } else {
            self.u128
        }
    }

    /// This value map with the value for the word type of the given width replaced.
    pub open spec fn set(self, width: nat, value: T) -> Self {
        if width == 8 {
            ByWordType { u8: value, ..self }
        } else if width == 16 {
            ByWordType { u16: value, ..self }
        } else if width == 32 {
            ByWordType { u32: value, ..self }
        } else if width == 64 {
            ByWordType { u64: value, ..self }
        } else {
            ByWordType { u128: value, ..self }
        }
    }

    /// Reading back a replaced value, or another word type's value.
    pub proof fn lemma_get_set(self, w: nat, x: T, v: nat)
        requires
            is_word_width(w),
            is_word_width(v),
        ensures
            self.set(w, x).get(v) == if v == w {
                x
            } else {
                self.get(v)
            },
    {
    }

    /// Creates a value map with the same value for all word types.
    pub fn constant(value: T) -> (r: Self)
        where
            T: Copy,
        ensures
            r.u8 == value,
            r.u16 == value,
            r.u32 == value,
            r.u64 == value,
            r.u128 == value,
    {
        Self { u8: value, u16: value, u32: value, u64: value, u128: value }
    }

    /// Creates a value map with a clone of the same value for all word types.
    pub fn clone_constant(value: &T) -> (r: Self)
        where
            T: Clone,
        ensures
            cloned(*value, r.u8),
            cloned(*value, r.u16),
            cloned(*value, r.u32),
            cloned(*value, r.u64),
            cloned(*value, r.u128),
    {
        Self {
            u8: value.clone(),
            u16: value.clone(),
            u32: value.clone(),
            u64: value.clone(),
            u128: value.clone(),
        }
    }

    /// Reference to the value associated to the given word type.
    pub fn as_value<W: Word>(&self) -> (r: &T)
        ensures
            *r == self.get(W::spec_width()),
    {
        let w = W::width();
        if w == 8 {
            &self.u8
        } else if w == 16 {
            &self.u16
        } else if w == 32 {
            &self.u32
        } else if w == 64 {
            &self.u64
        } else {
            &self.u128
        }
    }

    /// Mutable reference to the value associated to the given word type.
    pub fn as_value_mut<W: Word>(&mut self) -> (r: &mut T)
        ensures
            *r == old(self).get(W::spec_width()),
            *final(self) == old(self).set(W::spec_width(), *final(r)),
    {
        let w = W::width();
        if w == 8 {
            &mut self.u8
        } else if w == 16 {
            &mut self.u16
        } else if w == 32 {
            &mut self.u32
        } else if w == 64 {
            &mut self.u64
        } else {
            &mut self.u128
        }
    }

    /// Replaces the value associated to the given word type.
    pub fn with<W: Word>(self, value: T) -> (r: Self)
        ensures
            r == self.set(W::spec_width(), value),
    {
        let mut s = self;
        let w = W::width();
        if w == 8 {
            s.u8 = value;
        } else if w == 16 {
            s.u16 = value;
        } else if w == 32 {
            s.u32 = value;
        } else if w == 64 {
            s.u64 = value;
        } else {
            s.u128 = value;
        }
        s
    }

    /// Applies the given function to the value of each word type.
    pub fn map<U, F: Fn(&T) -> U>(&self, f: F) -> (r: ByWordType<U>)
        requires
            forall|t: &T| f.requires((t,)),
        ensures
            f.ensures((&self.u8,), r.u8),
            f.ensures((&self.u16,), r.u16),
            f.ensures((&self.u32,), r.u32),
            f.ensures((&self.u64,), r.u64),
            f.ensures((&self.u128,), r.u128),
    {
        ByWordType {
            u8: f(&self.u8),
            u16: f(&self.u16),
            u32: f(&self.u32),
            u64: f(&self.u64),
            u128: f(&self.u128),
        }
    }

    /// Applies the given function to the width and value of each word type.
    pub fn map_with_width<U, F: Fn(usize, &T) -> U>(&self, f: F) -> (r: ByWordType<U>)
        requires
            forall|w: usize, t: &T| f.requires((w, t)),
        ensures
            f.ensures((8usize, &self.u8), r.u8),
            f.ensures((16usize, &self.u16), r.u16),
            f.ensures((32usize, &self.u32), r.u32),
            f.ensures((64usize, &self.u64), r.u64),
            f.ensures((128usize, &self.u128), r.u128),
    {
        ByWordType {
            u8: f(8, &self.u8),
            u16: f(16, &self.u16),
            u32: f(32, &self.u32),
            u64: f(64, &self.u64),
            u128: f(128, &self.u128),
        }
    }

    /// Folds the values of all word types, from the narrowest to the widest, into an
    /// accumulator.
    pub fn reduce<U, F: Fn(U, &T) -> U>(&self, f: F, init: U) -> (r: U)
        requires
            forall|u: U, t: &T| f.requires((u, t)),
        ensures
            exists|a8: U, a16: U, a32: U, a64: U|
                f.ensures((init, &self.u8), a8) && f.ensures((a8, &self.u16), a16) && f.ensures(
                    (a16, &self.u32),
                    a32,
                ) && f.ensures((a32, &self.u64), a64) && f.ensures((a64, &self.u128), r),
    {
        let a8 = f(init, &self.u8);
        let a16 = f(a8, &self.u16);
        let a32 = f(a16, &self.u32);
        let a64 = f(a32, &self.u64);
        f(a64, &self.u128)
    }

    /// Combines the values of each word type in this and another value map.
    pub fn zip<U, V, F: Fn(&T, &U) -> V>(&self, other: &ByWordType<U>, f: F) -> (r: ByWordType<
        V,
    >)
        requires
            forall|t: &T, u: &U| f.requires((t, u)),
        ensures
            f.ensures((&self.u8, &other.u8), r.u8),
            f.ensures((&self.u16, &other.u16), r.u16),
            f.ensures((&self.u32, &other.u32), r.u32),
            f.ensures((&self.u64, &other.u64), r.u64),
            f.ensures((&self.u128, &other.u128), r.u128),
    {
        ByWordType {
            u8: f(&self.u8, &other.u8),
            u16: f(&self.u16, &other.u16),
            u32: f(&self.u32, &other.u32),
            u64: f(&self.u64, &other.u64),
            u128: f(&self.u128, &other.u128),
        }
    }
}

impl ByWordType<usize> {
    /// The empty shape.
    pub fn zero() -> (r: Shape)
        ensures
            r == (ByWordType { u8: 0usize, u16: 0usize, u32: 0usize, u64: 0usize, u128: 0usize }),
    {
        ByWordType { u8: 0, u16: 0, u32: 0, u64: 0, u128: 0 }
    }

    /// Total number of words in this shape.
    pub open spec fn spec_sum(self) -> int {
        self.u8 + self.u16 + self.u32 + self.u64 + self.u128
    }

    /// Total number of words in this shape.
    pub fn sum(&self) -> (r: usize)
        requires
            self.spec_sum() <= usize::MAX,
        ensures
            r == self.spec_sum(),
    {
        self.u8 + self.u16 + self.u32 + self.u64 + self.u128
    }
}

impl<T> ByWordType<Vec<T>> {
    /// The lengths of the vectors of each word type.
    pub open spec fn spec_shape(self) -> Shape {
        ByWordType {
            u8: self.u8.len(),
            u16: self.u16.len(),
            u32: self.u32.len(),
            u64: self.u64.len(),
            u128: self.u128.len(),
        }
    }

    /// Creates empty vectors for all word types.
    pub fn new() -> (r: Self)
        ensures
            r.u8@.len() == 0,
            r.u16@.len() == 0,
            r.u32@.len() == 0,
            r.u64@.len() == 0,
            r.u128@.len() == 0,
    {
        ByWordType { u8: Vec::new(), u16: Vec::new(), u32: Vec::new(), u64: Vec::new(), u128: Vec::new() }
    }

    /// Creates empty vectors with the given capacities.
    pub fn with_capacity(capacities: Shape) -> (r: Self)
        ensures
            r.u8@.len() == 0,
            r.u16@.len() == 0,
            r.u32@.len() == 0,
            r.u64@.len() == 0,
            r.u128@.len() == 0,
    {
        ByWordType {
            u8: Vec::with_capacity(capacities.u8),
            u16: Vec::with_capacity(capacities.u16),
            u32: Vec::with_capacity(capacities.u32),
            u64: Vec::with_capacity(capacities.u64),
            u128: Vec::with_capacity(capacities.u128),
        }
    }

    /// The vector of the given word type.
    pub fn as_vec<W: Word>(&self) -> (r: &Vec<T>)
        ensures
            *r == self.get(W::spec_width()),
    {
        self.as_value::<W>()
    }

    /// The vector of the given word type, mutably.
    pub fn as_vec_mut<W: Word>(&mut self) -> (r: &mut Vec<T>)
        ensures
            *r == old(self).get(W::spec_width()),
            *final(self) == old(self).set(W::spec_width(), *final(r)),
    {
        self.as_value_mut::<W>()
    }

    /// The number of elements of each word type.
    pub fn shape(&self) -> (r: Shape)
        ensures
            r == self.spec_shape(),
    {
        ByWordType {
            u8: self.u8.len(),
            u16: self.u16.len(),
            u32: self.u32.len(),
            u64: self.u64.len(),
            u128: self.u128.len(),
        }
    }

    /// Moves the given values to the end of the vector of the given word type.
    pub fn append<W: Word>(&mut self, values: &mut Vec<T>)
        ensures
            final(self).get(W::spec_width())@ == old(self).get(W::spec_width())@ + old(values)@,
            forall|w: nat|
                is_word_width(w) && w != W::spec_width() ==> #[trigger] final(self).get(w) == old(self).get(w),
            final(values)@.len() == 0,
    {
        proof {
            W::lemma_width();
        }
        let v = self.as_vec_mut::<W>();
        v.append(values);
    }

    /// Moves the given values to the end of the vector of the given word type.
    pub fn with_appended<W: Word>(self, values: &mut Vec<T>) -> (r: Self)
        ensures
            r.get(W::spec_width())@ == self.get(W::spec_width())@ + old(values)@,
            forall|w: nat| is_word_width(w) && w != W::spec_width() ==> #[trigger] r.get(w) == self.get(w),
            final(values)@.len() == 0,
    {
        let mut s = self;
        s.append::<W>(values);
        s
    }

    /// Pushes a value at the end of the vector of the given word type.
    pub fn push<W: Word>(&mut self, value: T)
        ensures
            final(self).get(W::spec_width())@ == old(self).get(W::spec_width())@.push(value),
            forall|w: nat|
                is_word_width(w) && w != W::spec_width() ==> #[trigger] final(self).get(w) == old(self).get(w),
    {
        proof {
            W::lemma_width();
        }
        let v = self.as_vec_mut::<W>();
        v.push(value);
    }

    /// Pushes a value at the end of the vector of the given word type.
    pub fn with_pushed<W: Word>(self, value: T) -> (r: Self)
        ensures
            r.get(W::spec_width())@ == self.get(W::spec_width())@.push(value),
            forall|w: nat| is_word_width(w) && w != W::spec_width() ==> #[trigger] r.get(w) == self.get(w),
    {
        let mut s = self;
        s.push::<W>(value);
        s
    }
}

} // verus!
