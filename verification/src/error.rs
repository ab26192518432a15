//! The errors of the transforms.

use vstd::prelude::*;

verus! {

/// What can be wrong with the arguments of a constructor or of a transform.
#[derive(Clone, Copy, Debug, PartialEq, Eq, Structural)]
pub enum Error {
    /// The field has fewer than `2^log_domain_size` elements.
    FieldTooSmall { log_domain_size: usize },
    /// The number of packed elements is not a power of two.
    PowerOfTwoLengthRequired,
    /// The degree of the extension field is not a power of two.
    PowerOfTwoExtensionDegreeRequired,
    /// The number of scalars in a packed element is not a power of two.
    PackingWidthMustDivideDimension,
    /// The batch holds more columns than there are scalars.
    BatchTooLarge,
    /// The domain does not reach the requested coset.
    DomainTooSmall { log_required_domain_size: usize },
}

} // verus!
