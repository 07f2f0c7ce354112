use vstd::prelude::*;

verus! {

/// Everything that can go wrong while building the graph or answering a
/// conversion query.  None of these is fatal: the caller may report the
/// error and prompt for the next query.
#[derive(Clone, Copy, Debug, PartialEq, Eq, Structural)]
pub enum Error {
    /// A table line does not fit the `<value> <name>[(<abbrev>)] = ...` shape.
    MalformedTableLine,
    /// A numeric value (in the table or in a query) does not parse or does
    /// not fit the machine representation.
    InvalidQuantity,
    /// A query token matches no node, or more than one, beyond the fuzzy
    /// tolerance.
    UnresolvedUnit,
    /// Both units resolve but no path connects them.
    NoConversionPath,
    /// An exact rational factor grew past the machine word even after
    /// reduction to lowest terms, or the graph outgrew its index space.
    ArithmeticOverflow,
    /// A conversion request does not fit the query grammar
    /// `<number> <unit> (to|in|->) <unit>`, optionally with `/` or `per`
    /// making each side a ratio of two units.
    MalformedQuery,
}

} // verus!
