use vstd::prelude::*;

verus! {

/// Errors that board generation or catalog handling can report.
///
/// Generation is a pure function of its inputs, so no error here is
/// transient: retrying with the same inputs reproduces the same error.
#[derive(Clone, Copy, Debug, PartialEq, Eq)]
pub enum BingoError {
    /// A computed difficulty tier has no entries in the catalog. Substituting
    /// another tier would silently break seed reproducibility, so the failure
    /// is reported to the caller instead.
    CatalogTierMissing,
    /// The catalog is structurally invalid: it could not be parsed from its
    /// external form, or it violates a construction-time bound (an oversized
    /// candidate pool, or an empty goal name).
    MalformedCatalog,
    /// The pseudorandom stream failed to accumulate a full mantissa of
    /// significance within the generous defensive bound. This cannot occur
    /// for a stream that yields any nonzero digit within the bound; it is an
    /// unreachable-invariant guard, not an expected outcome.
    RandomnessStalled,
}

} // verus!
