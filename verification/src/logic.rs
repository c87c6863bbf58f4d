//! Four-valued logic and vectors of it, kept in bit-vectors of `bitvec`.
//!
//! The verifier does not look inside a bit-vector. Its bits are named by
//! [`bits_of`], and the functions `bits_*` state over that name what the
//! `bitvec` method they call does. None of these statements is proved here.

use vstd::prelude::*;
use vstd::string::*;

use bitvec::order::Lsb0;
use bitvec::vec::BitVec;

use crate::text::{chars_of, string_of};

verus! {

/// A logic value: high impedance, undefined, 0 or 1.
#[derive(Clone, Copy, Default, Debug, PartialEq, Eq, Hash, Structural)]
pub enum Logic {
    #[default]
    Z,
    X,
    Zero,
    One,
}

/// Why a logic value or a vector of them was refused.
#[derive(Clone, Debug)]
pub enum Error {
    /// The text is no logic value.
    InvalidLogicValue(String),
    /// The character is none of `z`, `x`, `0` and `1`, in either case.
    LogicParseError(char),
    /// The value is neither 0 nor 1.
    NotZeroOne(Logic),
}

impl Logic {
    /// The number of the value: 0 for `Z`, 1 for `X`, 2 for 0 and 3 for 1.
    pub open spec fn code_of(self) -> u8 {
        match self {
            Logic::Z => 0,
            Logic::X => 1,
            Logic::Zero => 2,
            Logic::One => 3,
        }
    }

    /// The value of a number: that of which it is the number, and `Z` for a
    /// number above 3.
    pub open spec fn of_code(code: u8) -> Logic {
        if code == 1 {
            Logic::X
        } else if code == 2 {
            Logic::Zero
        } else if code == 3 {
            Logic::One
        } else {
            Logic::Z
        }
    }

    /// The value that two bits stand for: the first says whether the value
    /// is a level at all, the second which one.
    pub open spec fn of_bits(level: bool, high: bool) -> Logic {
        if level {
            if high {
                Logic::One
            } else {
                Logic::Zero
            }
        } else {
            if high {
                Logic::X
            } else {
                Logic::Z
            }
        }
    }

    /// The character of the value.
    pub open spec fn letter(self) -> char {
        match self {
            Logic::Z => 'z',
            Logic::X => 'x',
            Logic::Zero => '0',
            Logic::One => '1',
        }
    }

    /// The value that a character stands for, whatever its case.
    pub open spec fn of_letter(c: char) -> Option<Logic> {
        if c == 'z' || c == 'Z' {
            Some(Logic::Z)
        } else if c == 'x' || c == 'X' {
            Some(Logic::X)
        } else if c == '0' {
            Some(Logic::Zero)
        } else if c == '1' {
            Some(Logic::One)
        } else {
            None
        }
    }

    /// Computes [`Logic::code_of`].
    pub fn code(&self) -> (code: u8)
        ensures
            code == self.code_of(),
    {
        match self {
            Logic::Z => 0,
            Logic::X => 1,
            Logic::Zero => 2,
            Logic::One => 3,
        }
    }

    /// Computes [`Logic::of_code`].
    pub fn from_code(code: u8) -> (value: Logic)
        ensures
            value == Logic::of_code(code),
    {
        if code == 1 {
            Logic::X
        } else if code == 2 {
            Logic::Zero
        } else if code == 3 {
            Logic::One
        } else {
            Logic::Z
        }
    }

    /// Computes [`Logic::of_bits`].
    pub fn from_bits(level: bool, high: bool) -> (value: Logic)
        ensures
            value == Logic::of_bits(level, high),
            value.code_of() == (if level { 2u8 } else { 0u8 }) + (if high { 1u8 } else { 0u8 }),
    {
        if level {
            if high {
                Logic::One
            } else {
                Logic::Zero
            }
        } else {
            if high {
                Logic::X
            } else {
                Logic::Z
            }
        }
    }

    /// Whether the value is a level at all: 0 or 1.
    pub fn is_level(&self) -> (level: bool)
        ensures
            level == (*self == Logic::Zero || *self == Logic::One),
            Logic::of_bits(level, *self == Logic::X || *self == Logic::One) == *self,
    {
        match self {
            Logic::Zero | Logic::One => true,
            _ => false,
        }
    }

    /// Whether the second bit of the value is set: for `X` and 1.
    pub fn is_high(&self) -> (high: bool)
        ensures
            high == (*self == Logic::X || *self == Logic::One),
    {
        match self {
            Logic::X | Logic::One => true,
            _ => false,
        }
    }

    /// The truth value of a level; `Z` and `X` have none.
    pub fn to_bool(&self) -> (r: Result<bool, Error>)
        ensures
            match r {
                Ok(b) => *self == (if b { Logic::One } else { Logic::Zero }),
                Err(e) => e == Error::NotZeroOne(*self) && *self != Logic::Zero && *self != Logic::One,
            },
    {
        match self {
            Logic::Zero => Ok(false),
            Logic::One => Ok(true),
            _ => Err(Error::NotZeroOne(*self)),
        }
    }

    /// The value that a character stands for.
    pub fn from_char(c: char) -> (r: Result<Logic, Error>)
        ensures
            match r {
                Ok(value) => Logic::of_letter(c) == Some(value),
                Err(e) => e == Error::LogicParseError(c) && Logic::of_letter(c).is_none(),
            },
    {
        if c == 'z' || c == 'Z' {
            Ok(Logic::Z)
        } else if c == 'x' || c == 'X' {
            Ok(Logic::X)
        } else if c == '0' {
            Ok(Logic::Zero)
        } else if c == '1' {
            Ok(Logic::One)
        } else {
            Err(Error::LogicParseError(c))
        }
    }

    /// The character of the value.
    pub fn to_char(&self) -> (c: char)
        ensures
            c == self.letter(),
    {
        match self {
            Logic::Z => 'z',
            Logic::X => 'x',
            Logic::Zero => '0',
            Logic::One => '1',
        }
    }
}

/// A bit-vector of `bitvec`, with bits of `usize` in least-significant-first
/// order. The verifier does not look inside.
#[verifier::external_body]
#[derive(Debug)]
pub struct Bits {
    inner: BitVec<usize, Lsb0>,
}

/// The bits of a bit-vector, in order.
pub uninterp spec fn bits_of(b: Bits) -> Seq<bool>;

/// The largest number of bits that a bit-vector can hold.
pub open spec fn max_bits() -> int {
    (usize::MAX >> 3usize) as int
}

/// Computes [`max_bits`].
pub fn bits_limit() -> (limit: usize)
    ensures
        limit == max_bits(),
{
    usize::MAX >> 3usize
}

/// `BitVec::new`: a bit-vector without bits.
#[verifier::external_body]
pub(crate) fn bits_new() -> (b: Bits)
    ensures
        bits_of(b) =~= Seq::empty(),
{
    Bits { inner: BitVec::new() }
}

/// `BitVec::with_capacity`: a bit-vector without bits. It panics when the
/// capacity is above `BitSlice::MAX_BITS`.
#[verifier::external_body]
pub(crate) fn bits_with_capacity(capacity: usize) -> (b: Bits)
    requires
        capacity <= max_bits(),
    ensures
        bits_of(b) =~= Seq::empty(),
{
    Bits { inner: BitVec::with_capacity(capacity) }
}

/// `BitVec::capacity`: how many bits in all the bit-vector can store before
/// it must take more memory. The number is as the allocator gave; whatever
/// it gave, the bits that are stored are among those that can be, as
/// `BitVec::set_len` asserts of every new length.
#[verifier::external_body]
pub(crate) fn bits_capacity(b: &Bits) -> (n: usize)
    ensures
        n >= bits_of(*b).len(),
{
    b.inner.capacity()
}

/// `BitVec::len`: the number of bits.
#[verifier::external_body]
pub(crate) fn bits_len(b: &Bits) -> (n: usize)
    ensures
        n == bits_of(*b).len(),
        n <= max_bits(),
{
    b.inner.len()
}

/// `BitVec::shrink_to_fit`: leaves the bits as they are.
#[verifier::external_body]
pub(crate) fn bits_shrink_to_fit(b: &mut Bits)
    ensures
        bits_of(*final(b)) == bits_of(*old(b)),
{
    b.inner.shrink_to_fit()
}

/// `BitVec::resize`: cuts the bits down to `new_len` or fills them up to it
/// with `value`. It panics when the length is above `BitSlice::MAX_BITS`.
#[verifier::external_body]
pub(crate) fn bits_resize(b: &mut Bits, new_len: usize, value: bool)
    requires
        new_len <= max_bits(),
    ensures
        bits_of(*final(b)).len() == new_len,
        forall|i: int|
            0 <= i < new_len ==> #[trigger] bits_of(*final(b))[i] == (if i < bits_of(*old(b)).len() {
                bits_of(*old(b))[i]
            } else {
                value
            }),
{
    b.inner.resize(new_len, value)
}

/// `BitSlice::set`: writes one bit. It panics when the index is not below
/// the length.
#[verifier::external_body]
pub(crate) fn bits_set(b: &mut Bits, index: usize, value: bool)
    requires
        index < bits_of(*old(b)).len(),
    ensures
        bits_of(*final(b)) == bits_of(*old(b)).update(index as int, value),
{
    b.inner.set(index, value)
}

/// `BitSlice::get`: the bit at the index, if the index is below the length.
#[verifier::external_body]
pub(crate) fn bits_get(b: &Bits, index: usize) -> (bit: Option<bool>)
    ensures
        bit == (if index < bits_of(*b).len() {
            Some(bits_of(*b)[index as int])
        } else {
            None
        }),
{
    b.inner.get(index).map(|bit| *bit)
}

/// `BitVec::push`: appends one bit. It panics when the bit-vector holds
/// `BitSlice::MAX_BITS` bits already.
#[verifier::external_body]
pub(crate) fn bits_push(b: &mut Bits, value: bool)
    requires
        bits_of(*old(b)).len() < max_bits(),
    ensures
        bits_of(*final(b)) == bits_of(*old(b)).push(value),
{
    b.inner.push(value)
}

/// A vector of logic values, kept in two bit-vectors: one bit says whether
/// a value is a level at all, the other which level or, if none, whether it
/// is undefined.
#[derive(Debug)]
pub struct LogicVec {
    bv_zx: Bits,
    bv_01: Bits,
}

impl View for LogicVec {
    type V = Seq<Logic>;

    closed spec fn view(&self) -> Seq<Logic> {
        Seq::new(bits_of(self.bv_zx).len(), |i: int| Logic::of_bits(bits_of(self.bv_zx)[i], bits_of(self.bv_01)[i]))
    }
}

/// The values with `Z` from their end up to the position `index`, and
/// `value` at that position.
pub open spec fn set_at(values: Seq<Logic>, index: int, value: Logic) -> Seq<Logic> {
    if index < values.len() {
        values.update(index, value)
    } else {
        Seq::new((index + 1) as nat, |i: int| if i < values.len() {
            values[i]
        } else if i == index {
            value
        } else {
            Logic::Z
        })
    }
}

/// The value at a position, and `Z` beyond the end.
pub open spec fn value_at(values: Seq<Logic>, index: int) -> Logic {
    if 0 <= index < values.len() {
        values[index]
    } else {
        Logic::Z
    }
}

impl LogicVec {
    #[verifier::type_invariant]
    spec fn same_lengths(&self) -> bool {
        bits_of(self.bv_zx).len() == bits_of(self.bv_01).len()
    }

    /// A vector without values.
    pub fn new() -> (v: LogicVec)
        ensures
            v@ =~= Seq::empty(),
    {
        LogicVec { bv_zx: bits_new(), bv_01: bits_new() }
    }

    /// A vector without values, with room for `capacity` of them.
    pub fn with_capacity(capacity: usize) -> (v: LogicVec)
        requires
            capacity <= max_bits(),
        ensures
            v@ =~= Seq::empty(),
    {
        LogicVec { bv_zx: bits_with_capacity(capacity), bv_01: bits_with_capacity(capacity) }
    }

    /// How many values in all the vector can hold before it grows: as many
    /// as it holds, or more, as the allocator gave.
    pub fn capacity(&self) -> (n: usize)
        ensures
            n >= self@.len(),
    {
        bits_capacity(&self.bv_zx)
    }

    /// The number of values.
    pub fn len(&self) -> (n: usize)
        ensures
            n == self@.len(),
            n <= max_bits(),
    {
        bits_len(&self.bv_zx)
    }

    /// Gives back room that is not used; the values stay.
    pub fn shrink_to_fit(&mut self)
        ensures
            final(self)@ == old(self)@,
    {
        proof {
            use_type_invariant(&*self);
        }
        let mut taken = LogicVec::new();
        core::mem::swap(self, &mut taken);
        let LogicVec { bv_zx: mut zx, bv_01: mut b01 } = taken;
        bits_shrink_to_fit(&mut zx);
        bits_shrink_to_fit(&mut b01);
        *self = LogicVec { bv_zx: zx, bv_01: b01 };
        assert(self@ =~= old(self)@);
    }

    /// Sets the value at a position. A position beyond the end lengthens
    /// the vector, with `Z` in between.
    pub fn set(&mut self, index: usize, value: Logic)
        requires
            index < max_bits(),
        ensures
            final(self)@ == set_at(old(self)@, index as int, value),
    {
        proof {
            use_type_invariant(&*self);
        }
        let mut taken = LogicVec::new();
        core::mem::swap(self, &mut taken);
        let LogicVec { bv_zx: mut zx, bv_01: mut b01 } = taken;
        if index >= bits_len(&zx) {
            bits_resize(&mut zx, index + 1, false);
            bits_resize(&mut b01, index + 1, false);
        }
        bits_set(&mut zx, index, value.is_level());
        bits_set(&mut b01, index, value.is_high());
        *self = LogicVec { bv_zx: zx, bv_01: b01 };
        assert(self@ =~= set_at(old(self)@, index as int, value));
    }

    /// The number of the value at a position, and 0 beyond the end.
    pub fn get_as(&self, index: usize) -> (code: u8)
        ensures
            code == value_at(self@, index as int).code_of(),
    {
        proof {
            use_type_invariant(self);
        }
        match (bits_get(&self.bv_zx, index), bits_get(&self.bv_01, index)) {
            (Some(level), Some(high)) => Logic::from_bits(level, high).code(),
            _ => 0,
        }
    }

    /// The value at a position, and `Z` beyond the end.
    pub fn get(&self, index: usize) -> (value: Logic)
        ensures
            value == value_at(self@, index as int),
    {
        let code = self.get_as(index);
        proof {
            let v = value_at(self@, index as int);
            assert(Logic::of_code(v.code_of()) == v);
        }
        Logic::from_code(code)
    }

    /// Appends a value.
    pub fn push(&mut self, value: Logic)
        requires
            old(self)@.len() < max_bits(),
        ensures
            final(self)@ == old(self)@.push(value),
    {
        proof {
            use_type_invariant(&*self);
        }
        let mut taken = LogicVec::new();
        core::mem::swap(self, &mut taken);
        let LogicVec { bv_zx: mut zx, bv_01: mut b01 } = taken;
        bits_push(&mut zx, value.is_level());
        bits_push(&mut b01, value.is_high());
        *self = LogicVec { bv_zx: zx, bv_01: b01 };
        assert(self@ =~= old(self)@.push(value));
    }

    /// The values, in order.
    pub fn iter(&self) -> (values: Vec<Logic>)
        ensures
            values@ == self@,
    {
        let n = self.len();
        let mut values: Vec<Logic> = Vec::new();
        let mut i: usize = 0;
        while i < n
            invariant
                i <= n,
                n == self@.len(),
                values@ == self@.subrange(0, i as int),
            decreases n - i,
        {
            values.push(self.get(i));
            i = i + 1;
            assert(values@ =~= self@.subrange(0, i as int));
        }
        assert(self@.subrange(0, n as int) =~= self@);
        values
    }

    /// The vector of the given values.
    pub fn from_iter(values: &Vec<Logic>) -> (v: LogicVec)
        requires
            values@.len() <= max_bits(),
        ensures
            v@ == values@,
    {
        let mut v = LogicVec::new();
        let mut i: usize = 0;
        while i < values.len()
            invariant
                i <= values@.len(),
                values@.len() <= max_bits(),
                v@ == values@.subrange(0, i as int),
            decreases values.len() - i,
        {
            v.push(values[i]);
            i = i + 1;
            assert(v@ =~= values@.subrange(0, i as int));
        }
        assert(values@.subrange(0, values@.len() as int) =~= values@);
        v
    }

    /// The bits of a number as levels, the least significant first: as many
    /// as a `usize` has.
    pub fn from(value: usize) -> (v: LogicVec)
        ensures
            v@.len() == usize::BITS,
            forall|i: int|
                0 <= i < usize::BITS ==> #[trigger] v@[i] == (if (value >> (i as usize)) & 1usize == 1usize {
                    Logic::One
                } else {
                    Logic::Zero
                }),
    {
        let mut v = LogicVec::new();
        let mut i: u32 = 0;
        assert(usize::BITS <= 64);
        assert(64 < max_bits()) by {
            let m: usize = usize::MAX;
            assert((m >> 3usize) >= 0x1fff_ffffusize) by (bit_vector)
                requires
                    m >= 0xffff_ffffusize,
            ;
        }
        while i < usize::BITS
            invariant
                i <= usize::BITS,
                usize::BITS <= 64,
                64 < max_bits(),
                v@.len() == i,
                forall|j: int|
                    0 <= j < i ==> #[trigger] v@[j] == (if (value >> (j as usize)) & 1usize == 1usize {
                        Logic::One
                    } else {
                        Logic::Zero
                    }),
            decreases usize::BITS - i,
        {
            let bit = (value >> (i as usize)) & 1usize == 1usize;
            v.push(Logic::from_bits(true, bit));
            i = i + 1;
        }
        v
    }

    /// Reads a vector from its text, the last character being the value at
    /// position 0. Fails on the last character that is no logic value.
    pub fn from_str(s: &str) -> (r: Result<LogicVec, Error>)
        requires
            s@.len() <= max_bits(),
        ensures
            match r {
                Ok(v) => v@.len() == s@.len() && forall|i: int|
                    0 <= i < s@.len() ==> Logic::of_letter(s@[s@.len() - 1 - i]) == Some(#[trigger] v@[i]),
                Err(e) => exists|i: int|
                    0 <= i < s@.len() && e == Error::LogicParseError(#[trigger] s@[i]) && Logic::of_letter(s@[i]).is_none()
                        && forall|j: int| i < j < s@.len() ==> (#[trigger] Logic::of_letter(s@[j])).is_some(),
            },
    {
        let chars = chars_of(s);
        let n = chars.len();
        let mut v = LogicVec::new();
        let mut k: usize = 0;
        while k < n
            invariant
                k <= n,
                n == chars@.len(),
                chars@ == s@,
                n <= max_bits(),
                v@.len() == k,
                forall|i: int| 0 <= i < k ==> Logic::of_letter(s@[n - 1 - i]) == Some(#[trigger] v@[i]),
            decreases n - k,
        {
            let c = chars[n - 1 - k];
            match Logic::from_char(c) {
                Ok(value) => {
                    v.push(value);
                },
                Err(e) => {
                    proof {
                        let at = n - 1 - k;
                        assert(e == Error::LogicParseError(s@[at]));
                        assert forall|j: int| at < j < s@.len() implies (#[trigger] Logic::of_letter(s@[j])).is_some() by {
                            let i = n - 1 - j;
                            assert(Logic::of_letter(s@[n - 1 - i]) == Some(v@[i]));
                        }
                    }
                    return Err(e);
                },
            }
            k = k + 1;
        }
        Ok(v)
    }

    /// The text of the vector: the character of each value, the value at
    /// position 0 last.
    pub fn to_string(&self) -> (text: String)
        ensures
            text@.len() == self@.len(),
            forall|i: int| 0 <= i < self@.len() ==> #[trigger] text@[i] == self@[self@.len() - 1 - i].letter(),
    {
        let n = self.len();
        let mut out: Vec<char> = Vec::new();
        let mut k: usize = 0;
        while k < n
            invariant
                k <= n,
                n == self@.len(),
                out@.len() == k,
                forall|i: int| 0 <= i < k ==> #[trigger] out@[i] == self@[n - 1 - i].letter(),
            decreases n - k,
        {
            out.push(self.get(n - 1 - k).to_char());
            k = k + 1;
        }
        string_of(&out)
    }
}

impl Default for LogicVec {
    /// A vector without values.
    fn default() -> (v: LogicVec)
        ensures
            v@ =~= Seq::empty(),
    {
        LogicVec::new()
    }
}

/// A vector of logic values, kept in one bit-vector with two bits for each
/// value: the number of the value, its lower bit first.
#[derive(Debug)]
pub struct LogicVec1 {
    bv: Bits,
}

impl View for LogicVec1 {
    type V = Seq<Logic>;

    closed spec fn view(&self) -> Seq<Logic> {
        Seq::new(
            bits_of(self.bv).len() / 2,
            |i: int| Logic::of_bits(bits_of(self.bv)[2 * i + 1], bits_of(self.bv)[2 * i]),
        )
    }
}

impl LogicVec1 {
    #[verifier::type_invariant]
    spec fn whole_values(&self) -> bool {
        bits_of(self.bv).len() % 2 == 0
    }

    /// A vector without values.
    pub fn new() -> (v: LogicVec1)
        ensures
            v@ =~= Seq::empty(),
    {
        LogicVec1 { bv: bits_new() }
    }

    /// A vector without values, with room for `capacity` of them.
    pub fn with_capacity(capacity: usize) -> (v: LogicVec1)
        requires
            2 * capacity <= max_bits(),
        ensures
            v@ =~= Seq::empty(),
    {
        LogicVec1 { bv: bits_with_capacity(2 * capacity) }
    }

    /// The number of values that a number of bits holds: two bits make a
    /// value.
    pub fn values_in(bits: usize) -> (n: usize)
        ensures
            n == bits / 2,
    {
        bits / 2
    }

    /// How many values in all the vector can hold before it grows: as many
    /// as it holds, or more, as the allocator gave room for bits.
    pub fn capacity(&self) -> (n: usize)
        ensures
            n >= self@.len(),
    {
        LogicVec1::values_in(bits_capacity(&self.bv))
    }

    /// The number of values.
    pub fn len(&self) -> (n: usize)
        ensures
            n == self@.len(),
            2 * n <= max_bits(),
    {
        proof {
            use_type_invariant(self);
        }
        bits_len(&self.bv) / 2
    }

    /// Gives back room that is not used; the values stay.
    pub fn shrink_to_fit(&mut self)
        ensures
            final(self)@ == old(self)@,
    {
        proof {
            use_type_invariant(&*self);
        }
        let mut taken = LogicVec1::new();
        core::mem::swap(self, &mut taken);
        let LogicVec1 { mut bv } = taken;
        bits_shrink_to_fit(&mut bv);
        *self = LogicVec1 { bv };
    }

    /// Sets the value at a position. A position beyond the end lengthens
    /// the vector, with `Z` in between.
    pub fn set(&mut self, index: usize, value: Logic)
        requires
            2 * (index + 1) <= max_bits(),
        ensures
            final(self)@ == set_at(old(self)@, index as int, value),
    {
        proof {
            use_type_invariant(&*self);
        }
        let mut taken = LogicVec1::new();
        core::mem::swap(self, &mut taken);
        let LogicVec1 { mut bv } = taken;
        if index >= bits_len(&bv) / 2 {
            bits_resize(&mut bv, 2 * (index + 1), false);
        }
        bits_set(&mut bv, 2 * index, value.is_high());
        bits_set(&mut bv, 2 * index + 1, value.is_level());
        *self = LogicVec1 { bv };
        assert(self@ =~= set_at(old(self)@, index as int, value));
    }

    /// The number of the value at a position, and 0 beyond the end.
    pub fn get_as(&self, index: usize) -> (code: u8)
        ensures
            code == value_at(self@, index as int).code_of(),
    {
        proof {
            use_type_invariant(self);
        }
        if index >= bits_len(&self.bv) / 2 {
            return 0;
        }
        match (bits_get(&self.bv, 2 * index + 1), bits_get(&self.bv, 2 * index)) {
            (Some(level), Some(high)) => Logic::from_bits(level, high).code(),
            _ => 0,
        }
    }

    /// The value at a position, and `Z` beyond the end.
    pub fn get(&self, index: usize) -> (value: Logic)
        ensures
            value == value_at(self@, index as int),
    {
        let code = self.get_as(index);
        proof {
            let v = value_at(self@, index as int);
            assert(Logic::of_code(v.code_of()) == v);
        }
        Logic::from_code(code)
    }
}

impl LogicVec1 {
    /// Appends a value and, since the number of a value is written as a
    /// whole byte, three `Z` after it.
    pub fn push(&mut self, value: Logic)
        requires
            2 * old(self)@.len() + 8 <= max_bits(),
        ensures
            final(self)@ == old(self)@ + seq![value, Logic::Z, Logic::Z, Logic::Z],
    {
        proof {
            use_type_invariant(&*self);
        }
        let mut taken = LogicVec1::new();
        core::mem::swap(self, &mut taken);
        let LogicVec1 { mut bv } = taken;
        let ghost before = bits_of(bv);
        bits_push(&mut bv, value.is_high());
        bits_push(&mut bv, value.is_level());
        let mut k: usize = 2;
        while k < 8
            invariant
                2 <= k <= 8,
                before.len() % 2 == 0,
                before.len() + 8 <= max_bits(),
                bits_of(bv).len() == before.len() + k,
                forall|i: int| 0 <= i < before.len() ==> #[trigger] bits_of(bv)[i] == before[i],
                bits_of(bv)[before.len() as int] == (value == Logic::X || value == Logic::One),
                bits_of(bv)[before.len() as int + 1] == (value == Logic::Zero || value == Logic::One),
                forall|i: int| before.len() + 2 <= i < before.len() + k ==> !#[trigger] bits_of(bv)[i],
            decreases 8 - k,
        {
            bits_push(&mut bv, false);
            k = k + 1;
        }
        *self = LogicVec1 { bv };
        assert(self@ =~= old(self)@ + seq![value, Logic::Z, Logic::Z, Logic::Z]);
    }
}

impl Default for LogicVec1 {
    /// A vector without values.
    fn default() -> (v: LogicVec1)
        ensures
            v@ =~= Seq::empty(),
    {
        LogicVec1::new()
    }
}

} // verus!
