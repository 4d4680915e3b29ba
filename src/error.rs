use vstd::prelude::*;

verus! {

/// Every way in which defining a layout, deriving a field type or accessing
/// packed bits can fail.
#[derive(Debug, Clone, PartialEq, Eq)]
pub enum BitfieldError {
    /// No native unsigned integer is wide enough for the requested width.
    UnsupportedWidth,
    /// No primitive field type is registered for the requested width.
    UnknownSpecifier,
    /// The widths of all fields do not add up to a whole number of bytes.
    MisalignedLayout,
    /// A field's asserted width differs from the width of its type.
    WidthMismatch { field_name: String, expected: usize, actual: usize },
    /// An enumerated type does not have a power-of-two number of variants.
    NonPowerOfTwoVariantCount,
    /// A discriminant does not fit in the width derived for its enumerated type.
    DiscriminantOverflow,
    /// Two variants of an enumerated type share one discriminant.
    DuplicateDiscriminant,
    /// A bit range holds no bits.
    EmptyRange,
    /// A bit range reaches past the end of the buffer.
    OutOfBounds,
    /// Packed bits that name no variant of an enumerated type.
    InvalidDiscriminant,
    /// Packed bits that are no valid representation of a boolean.
    MalformedRepr,
}

} // verus!
