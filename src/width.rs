use vstd::prelude::*;

verus! {

/// The native unsigned integer widths, from narrowest to widest.
#[derive(Debug, Clone, Copy, PartialEq, Eq, Structural)]
pub enum NativeWidth {
    U8,
    U16,
    U32,
    U64,
    U128,
}

impl NativeWidth {
    /// The number of bits of this native integer.
    pub open spec fn spec_bits(self) -> nat {
        match self {
            NativeWidth::U8 => 8,
            NativeWidth::U16 => 16,
            NativeWidth::U32 => 32,
            NativeWidth::U64 => 64,
            NativeWidth::U128 => 128,
        }
    }

    pub fn bits(&self) -> (r: usize)
        ensures
            r == self.spec_bits(),
    {
        match self {
            NativeWidth::U8 => 8,
            NativeWidth::U16 => 16,
            NativeWidth::U32 => 32,
            NativeWidth::U64 => 64,
            NativeWidth::U128 => 128,
        }
    }
}

/// The narrowest native width holding `width_bits` bits; meaningful for
/// widths up to 128.
pub open spec fn best_fit_spec(width_bits: nat) -> NativeWidth {
    if width_bits <= 8 {
        NativeWidth::U8
    } else if width_bits <= 16 {
        NativeWidth::U16
    } else if width_bits <= 32 {
        NativeWidth::U32
    } else if width_bits <= 64 {
        NativeWidth::U64
    } else {
        NativeWidth::U128
    }
}

/// The best fit holds the width, and no narrower native width does.
pub proof fn lemma_best_fit_minimal(width_bits: nat, other: NativeWidth)
    requires
        width_bits <= 128,
        other.spec_bits() >= width_bits,
    ensures
        best_fit_spec(width_bits).spec_bits() >= width_bits,
        best_fit_spec(width_bits).spec_bits() <= other.spec_bits(),
{
}

/// Asking for more bits never yields a narrower native width.
pub proof fn lemma_best_fit_monotonic(w1: nat, w2: nat)
    requires
        w1 <= w2 <= 128,
    ensures
        best_fit_spec(w1).spec_bits() <= best_fit_spec(w2).spec_bits(),
{
}

/// Picks the narrowest native unsigned integer that holds `width_bits` bits.
pub fn best_fit(width_bits: usize) -> (r: Result<NativeWidth, crate::error::BitfieldError>)
    ensures
        width_bits <= 128 ==> r == Ok::<NativeWidth, crate::error::BitfieldError>(
            best_fit_spec(width_bits as nat),
        ),
        width_bits > 128 ==> r == Err::<NativeWidth, crate::error::BitfieldError>(
            crate::error::BitfieldError::UnsupportedWidth,
        ),
{
    if width_bits <= 8 {
        Ok(NativeWidth::U8)
    } else if width_bits <= 16 {
        Ok(NativeWidth::U16)
    } else if width_bits <= 32 {
        Ok(NativeWidth::U32)
    } else if width_bits <= 64 {
        Ok(NativeWidth::U64)
    } else if width_bits <= 128 {
        Ok(NativeWidth::U128)
    } else {
        Err(crate::error::BitfieldError::UnsupportedWidth)
    }
}

} // verus!
