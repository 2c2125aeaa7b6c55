//! Requests for the text of a floating-point value.
//!
//! The library never computes with floating-point numbers. Where a format
//! string asks for one, the renderers list what they need as [`FloatField`]s,
//! in the order in which the fields stand in the format string, and take the
//! finished texts back in that order.

use vstd::prelude::*;

verus! {

/// One floating-point text that a renderer needs. `bits` is the IEEE 754
/// binary64 representation of the value.
#[derive(Debug, Clone, PartialEq, Eq)]
pub enum FloatField {
    /// What C's `printf` makes of the value under one conversion, such as
    /// `%8.2f`.
    Printf { conversion: String, bits: u64 },
    /// Decimal notation with `precision` digits behind the point, as by `{:.*}`.
    Fixed { bits: u64, precision: usize },
    /// Scientific notation with a lower-case `e`, as by `{:.*e}`.
    LowerExp { bits: u64, precision: usize },
    /// Scientific notation with an upper-case `E`, as by `{:.*E}`.
    UpperExp { bits: u64, precision: usize },
    /// The shortest text that reads back as the same value, as by `{:?}`.
    Shortest { bits: u64 },
}

/// What a [`FloatField`] asks for.
#[verifier::ext_equal]
pub enum FloatFieldV {
    Printf { conversion: Seq<char>, bits: u64 },
    Fixed { bits: u64, precision: usize },
    LowerExp { bits: u64, precision: usize },
    UpperExp { bits: u64, precision: usize },
    Shortest { bits: u64 },
}

impl View for FloatField {
    type V = FloatFieldV;

    open spec fn view(&self) -> FloatFieldV {
        match *self {
            FloatField::Printf { conversion, bits } => FloatFieldV::Printf {
                conversion: conversion@,
                bits,
            },
            FloatField::Fixed { bits, precision } => FloatFieldV::Fixed { bits, precision },
            FloatField::LowerExp { bits, precision } => FloatFieldV::LowerExp { bits, precision },
            FloatField::UpperExp { bits, precision } => FloatFieldV::UpperExp { bits, precision },
            FloatField::Shortest { bits } => FloatFieldV::Shortest { bits },
        }
    }
}

/// What each field of a list asks for.
pub open spec fn field_views(fields: Seq<FloatField>) -> Seq<FloatFieldV> {
    Seq::new(fields.len(), |i: int| fields[i]@)
}

/// The texts of a list of strings.
pub open spec fn text_views(texts: Seq<String>) -> Seq<Seq<char>> {
    Seq::new(texts.len(), |i: int| texts[i]@)
}

} // verus!
