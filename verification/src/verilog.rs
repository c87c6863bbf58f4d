//! Pieces of the Verilog syntax tree: bit ranges and net types.

use vstd::prelude::*;

use std::ops::Range;

use crate::text::{chars_of, parse_number, parse_unsigned};

verus! {

/// The type of a width or of a bit position.
pub type SizeType = u32;

/// A constant bit range `[hi:lo]`.
#[derive(Clone, Debug, Eq, Hash, PartialEq, Default)]
pub struct ConstRange(pub SizeType, pub SizeType);

impl ConstRange {
    /// The number of bits between the two bounds, both included, whichever of
    /// them is the larger.
    pub open spec fn span(&self) -> int {
        if self.0 >= self.1 {
            self.0 - self.1 + 1
        } else {
            self.1 - self.0 + 1
        }
    }

    /// The first bound.
    pub fn hi(&self) -> (bound: SizeType)
        ensures
            bound == self.0,
    {
        self.0
    }

    /// The second bound.
    pub fn lo(&self) -> (bound: SizeType)
        ensures
            bound == self.1,
    {
        self.1
    }

    /// The number of bits of the range. The range must not span the whole
    /// of `SizeType`, whose bits cannot be counted in it.
    pub fn width(&self) -> (bits: SizeType)
        requires
            self.span() <= SizeType::MAX,
        ensures
            bits == self.span(),
    {
        if self.0 >= self.1 {
            self.0 - self.1 + 1
        } else {
            self.1 - self.0 + 1
        }
    }

    /// The positions from the first bound up to, but without, the second.
    pub fn range(&self) -> (positions: Range<SizeType>)
        ensures
            positions.start == self.0,
            positions.end == self.1,
    {
        self.0..self.1
    }
}

/// The type of a net.
#[derive(Clone, Debug, Eq, Hash, PartialEq, Default)]
pub enum NetType {
    #[default]
    Wire,
}

/// The value of a number literal.
#[derive(Clone, Copy, Debug, Default, Eq, Hash, PartialEq, Structural)]
pub struct NumberValue(pub usize);

impl NumberValue {
    /// Bit `idx` of the value, bit 0 being the least significant.
    pub open spec fn bit_of(self, idx: SizeType) -> bool {
        (self.0 >> (idx as usize)) & 1usize == 1usize
    }

    /// Reads the value as a numeral in the given radix.
    pub fn from_str_radix(s: &str, radix: u32) -> (value: Option<NumberValue>)
        requires
            2 <= radix <= 36,
        ensures
            value == match parse_number(s@, radix as int) {
                Some(v) => Some(NumberValue(v)),
                None => None,
            },
    {
        match parse_unsigned(&chars_of(s), radix) {
            Some(v) => Some(NumberValue(v)),
            None => None,
        }
    }

    /// Bit `idx` of the value. The value has no bit beyond its width.
    pub fn bit(&self, idx: SizeType) -> (b: bool)
        requires
            idx < usize::BITS,
        ensures
            b == self.bit_of(idx),
    {
        (self.0 >> (idx as usize)) & 1usize == 1usize
    }
}

/// A number literal: a value and, where it was given, a width in bits.
#[derive(Clone, Copy, Debug, Default, Eq, Hash, PartialEq, Structural)]
pub struct Number {
    pub size: Option<SizeType>,
    pub value: NumberValue,
}

impl Number {
    /// Reads a number of the given width from a numeral in the given radix.
    pub fn from_str_radix(s: &str, radix: u32, size: Option<SizeType>) -> (number: Option<Number>)
        requires
            2 <= radix <= 36,
        ensures
            number == match parse_number(s@, radix as int) {
                Some(v) => Some(Number { size, value: NumberValue(v) }),
                None => None,
            },
    {
        match NumberValue::from_str_radix(s, radix) {
            Some(value) => Some(Number { size, value }),
            None => None,
        }
    }

    /// Bit `idx` of the number: false from the width of the number on, and
    /// the bit of the value below.
    pub fn bit(&self, idx: SizeType) -> (b: bool)
        requires
            idx < usize::BITS,
        ensures
            b == match self.size {
                Some(w) => idx < w && self.value.bit_of(idx),
                None => self.value.bit_of(idx),
            },
    {
        match self.size {
            Some(w) => if idx >= w {
                false
            } else {
                self.value.bit(idx)
            },
            None => self.value.bit(idx),
        }
    }

    /// The value as a width or a bit position: its low 32 bits.
    pub fn to_size(&self) -> (size: SizeType)
        ensures
            size == self.value.0 as SizeType,
    {
        #[verifier::truncate]
        (self.value.0 as SizeType)
    }
}

/// A literal.
#[derive(Clone, Debug, Eq, Hash, PartialEq)]
pub enum Literal {
    Number(Number),
    StringLit(String),
}

/// A constant expression.
#[derive(Debug)]
pub enum ConstExpr {
    Primary(Literal),
    Concatenation(Vec<ConstExpr>),
}

impl ConstExpr {
    /// The number that the expression is, where it is a number literal.
    pub open spec fn number(&self) -> Option<Number> {
        match self {
            ConstExpr::Primary(Literal::Number(n)) => Some(*n),
            _ => None,
        }
    }

    /// The value of the expression: that of a number literal, and none for
    /// anything else.
    pub fn eval(&self) -> (value: Option<Number>)
        ensures
            value == self.number(),
    {
        match self {
            ConstExpr::Primary(Literal::Number(n)) => Some(*n),
            _ => None,
        }
    }
}

impl ConstRange {
    /// The range between two constant expressions, where both are number
    /// literals.
    pub fn from_const_expr(start: &ConstExpr, end: &ConstExpr) -> (range: Option<ConstRange>)
        ensures
            range == match (start.number(), end.number()) {
                (Some(hi), Some(lo)) => Some(ConstRange(hi.value.0 as SizeType, lo.value.0 as SizeType)),
                _ => None,
            },
    {
        match (start.eval(), end.eval()) {
            (Some(hi), Some(lo)) => Some(ConstRange(hi.to_size(), lo.to_size())),
            _ => None,
        }
    }
}

} // verus!
