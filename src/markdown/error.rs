//! Why a document could not be converted.

use crate::markdown::date::DateError;
use vstd::prelude::*;

verus! {

/// A fatal problem with a document: conversion stops at the first one.
#[derive(Debug, Clone, Copy, PartialEq, Eq, Structural)]
pub enum ParseError {
    /// The first line is not the header delimiter `---`.
    MissingHeader,
    /// The line after the opening delimiter is not a `title: ` line.
    MissingTitle,
    /// The input ends inside the header.
    UnclosedHeader,
    /// The `date: ` line does not hold a date.
    InvalidDate(DateError),
    /// Inline syntax that is recognised but not supported (`[` or `!`).
    Unsupported(char),
    /// No grammar could highlight a code block of a recognised language.
    NoGrammar,
}

} // verus!
