//! Field types: their width in bits, their native container, and the
//! conversions between a field's value and its packed bits.
use crate::error::BitfieldError;
use crate::width::{best_fit, best_fit_spec, NativeWidth};
use vstd::arithmetic::power2::{lemma2_to64, lemma_pow2_strictly_increases, pow2};
use vstd::prelude::*;

verus! {

/// A field type: how many bits it occupies and how its values map to and
/// from those bits.
pub trait Specifier: Sized {
    /// The value a field of this type stands for.
    type Target;

    /// The descriptor is consistent.
    spec fn wf(&self) -> bool;

    /// The width in bits.
    spec fn width(&self) -> nat;

    /// The values that fields of this type can hold.
    spec fn valid_target(&self, t: Self::Target) -> bool;

    /// The packed bits of a value, as a number.
    spec fn encode(&self, t: Self::Target) -> nat;

    /// The value that packed bits stand for, if any.
    spec fn decode(&self, repr: nat) -> Option<Self::Target>;

    /// The error reported for packed bits that stand for no value.
    spec fn decode_error(&self) -> BitfieldError;

    fn bits(&self) -> (r: usize)
        requires
            self.wf(),
        ensures
            r == self.width(),
            r <= 128,
    ;

    fn container(&self) -> (r: NativeWidth)
        requires
            self.wf(),
        ensures
            r == best_fit_spec(self.width()),
    ;

    fn from_bit_repr(&self, repr: u128) -> (r: Result<Self::Target, BitfieldError>)
        requires
            self.wf(),
            (repr as nat) < pow2(self.width()),
        ensures
            r == match self.decode(repr as nat) {
                Some(t) => Ok(t),
                None => Err(self.decode_error()),
            },
    ;

    fn from_target(&self, target: Self::Target) -> (r: u128)
        requires
            self.wf(),
            self.valid_target(target),
        ensures
            r as nat == self.encode(target),
    ;

    /// Decoding the bits of a value that fits in the width gives the value back.
    proof fn lemma_decode_encode(&self, t: Self::Target)
        requires
            self.wf(),
            self.valid_target(t),
            self.encode(t) < pow2(self.width()),
        ensures
            self.decode(self.encode(t)) == Some(t),
    ;
}

/// What `from_bit_repr` returns for the packed number `repr`.
pub open spec fn decoded<S: Specifier>(s: &S, repr: nat) -> Result<S::Target, BitfieldError> {
    match s.decode(repr) {
        Some(t) => Ok(t),
        None => Err(s.decode_error()),
    }
}

/// A plain unsigned integer field of a fixed width from 0 to 64 bits.
#[derive(Debug, Clone, Copy, PartialEq, Eq)]
pub struct Bits {
    pub width: usize,
}

/// Looks up the integer field type of `width` bits; one exists for every
/// width from 0 to 64.
pub fn specify_bits(width: usize) -> (r: Result<Bits, BitfieldError>)
    ensures
        width <= 64 ==> r == Ok::<Bits, BitfieldError>(Bits { width }),
        width > 64 ==> r == Err::<Bits, BitfieldError>(BitfieldError::UnknownSpecifier),
{
    if width <= 64 {
        Ok(Bits { width })
    } else {
        Err(BitfieldError::UnknownSpecifier)
    }
}

impl Specifier for Bits {
    type Target = u64;

    open spec fn wf(&self) -> bool {
        self.width <= 64
    }

    open spec fn width(&self) -> nat {
        self.width as nat
    }

    open spec fn valid_target(&self, t: u64) -> bool {
        true
    }

    open spec fn encode(&self, t: u64) -> nat {
        t as nat
    }

    open spec fn decode(&self, repr: nat) -> Option<u64> {
        Some(repr as u64)
    }

    open spec fn decode_error(&self) -> BitfieldError {
        BitfieldError::MalformedRepr
    }

    fn bits(&self) -> (r: usize) {
        self.width
    }

    fn container(&self) -> (r: NativeWidth) {
        match best_fit(self.width) {
            Ok(w) => w,
            Err(_) => NativeWidth::U128,
        }
    }

    fn from_bit_repr(&self, repr: u128) -> (r: Result<u64, BitfieldError>) {
        proof {
            lemma2_to64();
            if self.width < 64 {
                lemma_pow2_strictly_increases(self.width as nat, 64);
            }
        }
        Ok(repr as u64)
    }

    fn from_target(&self, target: u64) -> (r: u128) {
        target as u128
    }

    proof fn lemma_decode_encode(&self, t: u64) {
    }
}

/// The one-bit boolean field type: `false` packs as 0 and `true` as 1.
#[derive(Debug, Clone, Copy, PartialEq, Eq)]
pub struct BoolSpec;

impl Specifier for BoolSpec {
    type Target = bool;

    open spec fn wf(&self) -> bool {
        true
    }

    open spec fn width(&self) -> nat {
        1
    }

    open spec fn valid_target(&self, t: bool) -> bool {
        true
    }

    open spec fn encode(&self, t: bool) -> nat {
        if t {
            1
        } else {
            0
        }
    }

    open spec fn decode(&self, repr: nat) -> Option<bool> {
        if repr == 0 {
            Some(false)
        } else if repr == 1 {
            Some(true)
        } else {
            None
        }
    }

    open spec fn decode_error(&self) -> BitfieldError {
        BitfieldError::MalformedRepr
    }

    fn bits(&self) -> (r: usize) {
        1
    }

    fn container(&self) -> (r: NativeWidth) {
        NativeWidth::U8
    }

    fn from_bit_repr(&self, repr: u128) -> (r: Result<bool, BitfieldError>) {
        match repr {
            0 => Ok(false),
            1 => Ok(true),
            _ => Err(BitfieldError::MalformedRepr),
        }
    }

    fn from_target(&self, target: bool) -> (r: u128) {
        if target {
            1
        } else {
            0
        }
    }

    proof fn lemma_decode_encode(&self, t: bool) {
    }
}

/// An enumerated field type: variant `i` packs as `discriminants[i]`, and the
/// width is the base-2 logarithm of the number of variants.
#[derive(Debug, Clone, PartialEq, Eq)]
pub struct EnumSpec {
    pub bits: usize,
    pub discriminants: Vec<u64>,
}

/// `n` is a power of two.
pub open spec fn power_of_two(n: nat) -> bool
    decreases n,
{
    if n == 1 {
        true
    } else if n >= 2 && n % 2 == 0 {
        power_of_two(n / 2)
    } else {
        false
    }
}

/// The base-2 logarithm of `n`, rounded down (0 for 0 and 1).
pub open spec fn log2(n: nat) -> nat
    decreases n,
{
    if n <= 1 {
        0
    } else {
        1 + log2(n / 2)
    }
}

/// The discriminant of variant `i`: the declared one, or else one more than
/// that of the variant before it (0 for the first variant).
pub open spec fn resolved_discriminant(variants: Seq<Option<u64>>, i: int) -> nat
    decreases i,
{
    match variants[i] {
        Some(d) => d as nat,
        None => if i <= 0 {
            0
        } else {
            resolved_discriminant(variants, i - 1) + 1
        },
    }
}

/// Two variants resolve to the same discriminant.
pub open spec fn has_duplicate_discriminant(variants: Seq<Option<u64>>) -> bool {
    exists|i: int, j: int|
        0 <= i < j < variants.len() && resolved_discriminant(variants, i)
            == resolved_discriminant(variants, j)
}

/// Some variant resolves to a discriminant of `variants.len()` or more.
pub open spec fn has_overflowing_discriminant(variants: Seq<Option<u64>>) -> bool {
    exists|i: int| 0 <= i < variants.len() && resolved_discriminant(variants, i) >= variants.len()
}

proof fn lemma_pow2_fits_usize(k: nat)
    requires
        pow2(k) <= usize::MAX,
    ensures
        k < 64,
{
    lemma2_to64();
    if k > 64 {
        lemma_pow2_strictly_increases(64, k);
    }
}

/// Derives the field type of an enumerated type from its variants, each with
/// its declared discriminant or none.
pub fn enum_specifier(variants: &Vec<Option<u64>>) -> (r: Result<EnumSpec, BitfieldError>)
    ensures
        !power_of_two(variants@.len() as nat) ==> r == Err::<EnumSpec, BitfieldError>(
            BitfieldError::NonPowerOfTwoVariantCount,
        ),
        power_of_two(variants@.len() as nat) && has_overflowing_discriminant(variants@) ==> r
            == Err::<EnumSpec, BitfieldError>(BitfieldError::DiscriminantOverflow),
        power_of_two(variants@.len() as nat) && !has_overflowing_discriminant(variants@)
            && has_duplicate_discriminant(variants@) ==> r == Err::<EnumSpec, BitfieldError>(
            BitfieldError::DuplicateDiscriminant,
        ),
        power_of_two(variants@.len() as nat) && !has_overflowing_discriminant(variants@)
            && !has_duplicate_discriminant(variants@) ==> (r matches Ok(e) && e.wf() && e.bits
            == log2(variants@.len() as nat) && e.discriminants@.len() == variants@.len() && (
        forall|i: int|
            0 <= i < variants@.len() ==> e.discriminants@[i] == resolved_discriminant(
                variants@,
                i,
            ))),
{
    let n: usize = variants.len();
    let mut m: usize = n;
    let mut bits: usize = 0;
    proof {
        lemma2_to64();
    }
    while m > 1 && m % 2 == 0
        invariant
            power_of_two(n as nat) == power_of_two(m as nat),
            log2(n as nat) == bits + log2(m as nat),
            pow2(bits as nat) * m == n,
            n <= usize::MAX,
        decreases m,
    {
        proof {
            vstd::arithmetic::power2::lemma_pow2_unfold((bits + 1) as nat);
            assert(pow2(bits as nat) * 2 <= pow2(bits as nat) * m) by (nonlinear_arith)
                requires
                    m >= 2,
            ;
            lemma_pow2_fits_usize((bits + 1) as nat);
            assert(pow2((bits + 1) as nat) * (m / 2) == n) by (nonlinear_arith)
                requires
                    pow2((bits + 1) as nat) == 2 * pow2(bits as nat),
                    pow2(bits as nat) * m == n,
                    m % 2 == 0,
            ;
        }
        m = m / 2;
        bits = bits + 1;
    }
    if m != 1 {
        return Err(BitfieldError::NonPowerOfTwoVariantCount);
    }
    proof {
        lemma_pow2_fits_usize(bits as nat);
    }
    let mut discriminants: Vec<u64> = Vec::new();
    let mut next: u128 = 0;
    let mut i: usize = 0;
    while i < n
        invariant
            i <= n,
            n == variants@.len(),
            power_of_two(n as nat),
            bits == log2(n as nat),
            pow2(bits as nat) == n,
            discriminants@.len() == i,
            forall|k: int| 0 <= k < i ==> discriminants@[k] == resolved_discriminant(variants@, k),
            forall|k: int| 0 <= k < i ==> resolved_discriminant(variants@, k) < n,
            i > 0 ==> next == resolved_discriminant(variants@, i - 1) + 1,
            i == 0 ==> next == 0,
        decreases n - i,
    {
        let d: u128 = match variants[i] {
            Some(v) => v as u128,
            None => next,
        };
        assert(d == resolved_discriminant(variants@, i as int));
        if d >= n as u128 {
            return Err(BitfieldError::DiscriminantOverflow);
        }
        discriminants.push(d as u64);
        next = d + 1;
        i = i + 1;
    }
    let mut seen: Vec<bool> = Vec::new();
    let mut k: usize = 0;
    while k < n
        invariant
            k <= n,
            seen@.len() == k,
            forall|j: int| 0 <= j < k ==> !seen@[j],
        decreases n - k,
    {
        seen.push(false);
        k = k + 1;
    }
    let mut j: usize = 0;
    while j < n
        invariant
            j <= n,
            n == variants@.len(),
            power_of_two(n as nat),
            seen@.len() == n,
            discriminants@.len() == n,
            forall|a: int| 0 <= a < n ==> discriminants@[a] == resolved_discriminant(variants@, a),
            forall|a: int| 0 <= a < n ==> resolved_discriminant(variants@, a) < n,
            forall|v: int|
                0 <= v < n ==> (seen@[v] <==> exists|a: int|
                    0 <= a < j && discriminants@[a] == v),
            forall|a: int, b: int|
                0 <= a < b < j ==> discriminants@[a] != discriminants@[b],
        decreases n - j,
    {
        let d: usize = discriminants[j] as usize;
        if seen[d] {
            proof {
                let a = choose|a: int| 0 <= a < j && discriminants@[a] == d;
                assert(resolved_discriminant(variants@, a) == resolved_discriminant(
                    variants@,
                    j as int,
                ));
            }
            return Err(BitfieldError::DuplicateDiscriminant);
        }
        seen.set(d, true);
        proof {
            assert forall|v: int|
                0 <= v < n implies (seen@[v] <==> exists|a: int|
                    0 <= a < j + 1 && discriminants@[a] == v) by {
                if v == d {
                    assert(discriminants@[j as int] == v);
                }
            }
        }
        j = j + 1;
    }
    let e = EnumSpec { bits, discriminants };
    proof {
        assert forall|a: int, b: int|
            0 <= a < b < n implies resolved_discriminant(variants@, a) != resolved_discriminant(
                variants@,
                b,
            ) by {
            assert(e.discriminants@[a] != e.discriminants@[b]);
        }
    }
    Ok(e)
}

impl Specifier for EnumSpec {
    type Target = usize;

    open spec fn wf(&self) -> bool {
        &&& self.bits < 64
        &&& self.discriminants@.len() == pow2(self.bits as nat)
        &&& forall|i: int|
            0 <= i < self.discriminants@.len() ==> (self.discriminants@[i] as nat) < pow2(
                self.bits as nat,
            )
        &&& forall|i: int, j: int|
            0 <= i < j < self.discriminants@.len() ==> self.discriminants@[i]
                != self.discriminants@[j]
    }

    open spec fn width(&self) -> nat {
        self.bits as nat
    }

    open spec fn valid_target(&self, t: usize) -> bool {
        t < self.discriminants@.len()
    }

    open spec fn encode(&self, t: usize) -> nat {
        self.discriminants@[t as int] as nat
    }

    open spec fn decode(&self, repr: nat) -> Option<usize> {
        if exists|i: int| 0 <= i < self.discriminants@.len() && self.discriminants@[i] == repr {
            Some(
                (choose|i: int|
                    0 <= i < self.discriminants@.len() && self.discriminants@[i] == repr) as usize,
            )
        } else {
            None
        }
    }

    open spec fn decode_error(&self) -> BitfieldError {
        BitfieldError::InvalidDiscriminant
    }

    fn bits(&self) -> (r: usize) {
        self.bits
    }

    fn container(&self) -> (r: NativeWidth) {
        match best_fit(self.bits) {
            Ok(w) => w,
            Err(_) => NativeWidth::U128,
        }
    }

    fn from_bit_repr(&self, repr: u128) -> (r: Result<usize, BitfieldError>) {
        let mut i: usize = 0;
        while i < self.discriminants.len()
            invariant
                self.wf(),
                i <= self.discriminants@.len(),
                forall|k: int| 0 <= k < i ==> self.discriminants@[k] != repr,
            decreases self.discriminants@.len() - i,
        {
            if self.discriminants[i] as u128 == repr {
                proof {
                    let c = choose|c: int|
                        0 <= c < self.discriminants@.len() && self.discriminants@[c] == repr;
                    if c != i {
                        if c < i {
                            assert(self.discriminants@[c] != self.discriminants@[i as int]);
                        } else {
                            assert(self.discriminants@[i as int] != self.discriminants@[c]);
                        }
                    }
                }
                return Ok(i);
            }
            i = i + 1;
        }
        Err(BitfieldError::InvalidDiscriminant)
    }

    fn from_target(&self, target: usize) -> (r: u128) {
        self.discriminants[target] as u128
    }

    proof fn lemma_decode_encode(&self, t: usize) {
        let c = choose|c: int|
            0 <= c < self.discriminants@.len() && self.discriminants@[c] == self.encode(t);
        assert(self.discriminants@[t as int] == self.encode(t));
        if c != t {
            if c < t {
                assert(self.discriminants@[c] != self.discriminants@[t as int]);
            } else {
                assert(self.discriminants@[t as int] != self.discriminants@[c]);
            }
        }
    }
}

} // verus!
