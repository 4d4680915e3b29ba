//! A packed struct: one byte buffer shared by all fields of a layout, with a
//! getter and a setter for each field.
use crate::bits::{
    byte_bit, lemma_non_interference, lemma_pow2_at_most_128, lemma_range_value_bound, lemma_round_trip, lemma_write_then_read,
    range_value, writes,
};
use crate::codec::{read_bits, write_bits};
use crate::error::BitfieldError;
use crate::layout::{lemma_field_within, lemma_fields_disjoint, Layout};
use crate::specifier::{decoded, Specifier};
use vstd::arithmetic::power2::pow2;
use vstd::prelude::*;

verus! {

/// The bits of field `field` of a layout, read as a number.
pub open spec fn field_value(layout: Layout, bytes: Seq<u8>, field: int) -> nat {
    range_value(bytes, layout.fields@[field].start as int, layout.fields@[field].end as int)
}

/// `new` is `old` with `v`'s low bits stored in field `field` and every other
/// bit kept.
pub open spec fn field_written(
    layout: Layout,
    old: Seq<u8>,
    new: Seq<u8>,
    field: int,
    v: u128,
) -> bool {
    writes(old, new, layout.fields@[field].start as int, layout.fields@[field].end as int, v)
}

/// A buffer of the size that the layout asks for.
pub open spec fn fits(layout: Layout, bytes: Seq<u8>) -> bool {
    layout.wf() && 8 * bytes.len() == layout.total_bits
}

/// A byte written as eight binary digits, most significant first.
pub open spec fn binary_digits(b: u8) -> Seq<char> {
    Seq::new(
        8,
        |k: int|
            if byte_bit(b, k) {
                '1'
            } else {
                '0'
            },
    )
}

/// Relies on `String::push`, which appends one character.
#[verifier::external_body]
fn push_char(s: &mut String, c: char)
    ensures
        final(s)@ == old(s)@.push(c),
{
    s.push(c)
}

/// Writes a byte as eight binary digits, most significant first.
pub fn binary_string(b: u8) -> (r: String)
    ensures
        r@ == binary_digits(b),
{
    let mut s = String::new();
    let mut k: u8 = 0;
    while k < 8
        invariant
            k <= 8,
            s@ =~= binary_digits(b).take(k as int),
        decreases 8 - k,
    {
        let bit: u8 = (b >> (7 - k)) & 1;
        if bit == 1 {
            push_char(&mut s, '1');
        } else {
            push_char(&mut s, '0');
        }
        assert(s@ =~= binary_digits(b).take(k + 1));
        k = k + 1;
    }
    s
}

/// An instance of a packed struct: its layout and its bytes, all fields
/// packed with no padding.
pub struct Bitfield {
    layout: Layout,
    data: Vec<u8>,
}

impl Bitfield {
    pub closed spec fn spec_layout(&self) -> Layout {
        self.layout
    }

    /// The packed bytes.
    pub closed spec fn bytes(&self) -> Seq<u8> {
        self.data@
    }

    pub open spec fn wf(&self) -> bool {
        fits(self.spec_layout(), self.bytes())
    }

    /// An instance with every bit zero.
    pub fn new(layout: Layout) -> (r: Bitfield)
        requires
            layout.wf(),
        ensures
            r.wf(),
            r.spec_layout() == layout,
            r.bytes().len() == layout.total_bits / 8,
            forall|i: int| 0 <= i < r.bytes().len() ==> r.bytes()[i] == 0,
    {
        let n: usize = layout.total_bits / 8;
        let mut data: Vec<u8> = Vec::new();
        let mut i: usize = 0;
        while i < n
            invariant
                i <= n,
                data@.len() == i,
                forall|k: int| 0 <= k < i ==> data@[k] == 0,
            decreases n - i,
        {
            data.push(0);
            i = i + 1;
        }
        Bitfield { layout, data }
    }

    /// An instance over bytes that came from elsewhere.
    pub fn from_bytes(layout: Layout, data: Vec<u8>) -> (r: Bitfield)
        requires
            fits(layout, data@),
        ensures
            r.wf(),
            r.spec_layout() == layout,
            r.bytes() == data@,
    {
        Bitfield { layout, data }
    }

    pub fn layout(&self) -> (r: &Layout)
        ensures
            *r == self.spec_layout(),
    {
        &self.layout
    }

    pub fn as_bytes(&self) -> (r: &Vec<u8>)
        ensures
            r@ == self.bytes(),
    {
        &self.data
    }

    /// Each packed byte as eight binary digits, for diagnostics.
    pub fn dump(&self) -> (r: Vec<String>)
        ensures
            r@.len() == self.bytes().len(),
            forall|i: int| 0 <= i < r@.len() ==> r@[i]@ == binary_digits(self.bytes()[i]),
    {
        let mut out: Vec<String> = Vec::new();
        let mut i: usize = 0;
        while i < self.data.len()
            invariant
                i <= self.data@.len(),
                out@.len() == i,
                forall|k: int| 0 <= k < i ==> out@[k]@ == binary_digits(self.data@[k]),
            decreases self.data@.len() - i,
        {
            out.push(binary_string(self.data[i]));
            i = i + 1;
        }
        out
    }

    /// The raw bits of a field, as a number.
    pub fn get_raw(&self, field: usize) -> (r: u128)
        requires
            self.wf(),
            field < self.spec_layout().fields@.len(),
        ensures
            r == field_value(self.spec_layout(), self.bytes(), field as int),
    {
        proof {
            lemma_field_within(self.layout, field as int);
        }
        let f = &self.layout.fields[field];
        if f.start == f.end {
            return 0;
        }
        match read_bits(&self.data, f.start, f.end) {
            Ok(v) => v,
            Err(_) => 0,
        }
    }

    /// Stores the low bits of `value` in a field, as many as it is wide.
    pub fn set_raw(&mut self, field: usize, value: u128)
        requires
            old(self).wf(),
            field < old(self).spec_layout().fields@.len(),
        ensures
            final(self).wf(),
            final(self).spec_layout() == old(self).spec_layout(),
            field_written(
                old(self).spec_layout(),
                old(self).bytes(),
                final(self).bytes(),
                field as int,
                value,
            ),
    {
        proof {
            lemma_field_within(self.layout, field as int);
        }
        let start: usize = self.layout.fields[field].start;
        let end: usize = self.layout.fields[field].end;
        if start == end {
            return;
        }
        let _ = write_bits(&mut self.data, start, end, value);
    }

    /// Reads a field as a value of its type.
    pub fn get<S: Specifier>(&self, field: usize, spec: &S) -> (r: Result<
        S::Target,
        BitfieldError,
    >)
        requires
            self.wf(),
            spec.wf(),
            field < self.spec_layout().fields@.len(),
            spec.width() == self.spec_layout().fields@[field as int].bit_width,
        ensures
            r == decoded(spec, field_value(self.spec_layout(), self.bytes(), field as int)),
    {
        let repr: u128 = self.get_raw(field);
        proof {
            let f = self.layout.fields@[field as int];
            lemma_field_within(self.layout, field as int);
            lemma_range_value_bound(self.data@, f.start as int, f.end as int);
        }
        spec.from_bit_repr(repr)
    }

    /// Stores a value of its type in a field.
    pub fn set<S: Specifier>(&mut self, field: usize, spec: &S, value: S::Target)
        requires
            old(self).wf(),
            spec.wf(),
            spec.valid_target(value),
            field < old(self).spec_layout().fields@.len(),
            spec.width() == old(self).spec_layout().fields@[field as int].bit_width,
        ensures
            final(self).wf(),
            final(self).spec_layout() == old(self).spec_layout(),
            field_written(
                old(self).spec_layout(),
                old(self).bytes(),
                final(self).bytes(),
                field as int,
                spec.encode(value) as u128,
            ),
    {
        let repr: u128 = spec.from_target(value);
        self.set_raw(field, repr);
    }
}

/// Storing a value that fits in a field and reading the field back gives the
/// value.
pub proof fn lemma_set_get_round_trip<S: Specifier>(
    spec: S,
    layout: Layout,
    old: Seq<u8>,
    new: Seq<u8>,
    field: int,
    t: S::Target,
)
    requires
        fits(layout, old),
        0 <= field < layout.fields@.len(),
        spec.wf(),
        spec.width() == layout.fields@[field].bit_width,
        spec.valid_target(t),
        spec.encode(t) < pow2(spec.width()),
        field_written(layout, old, new, field, spec.encode(t) as u128),
    ensures
        decoded(&spec, field_value(layout, new, field)) == Ok::<S::Target, BitfieldError>(t),
{
    let f = layout.fields@[field];
    lemma_pow2_at_most_128(spec.width());
    lemma_round_trip(old, new, f.start as int, f.end as int, spec.encode(t) as u128);
    spec.lemma_decode_encode(t);
}

/// Storing any number in a field keeps its low bits: reading the field back
/// gives the number modulo two to the field's width.
pub proof fn lemma_set_truncates(layout: Layout, old: Seq<u8>, new: Seq<u8>, field: int, v: u128)
    requires
        fits(layout, old),
        0 <= field < layout.fields@.len(),
        field_written(layout, old, new, field, v),
    ensures
        field_value(layout, new, field) == (v as nat) % pow2(
            layout.fields@[field].bit_width as nat,
        ),
{
    let f = layout.fields@[field];
    lemma_write_then_read(old, new, f.start as int, f.end as int, v);
}

/// Storing a value in one field leaves every other field as it was.
pub proof fn lemma_set_keeps_other_fields(
    layout: Layout,
    old: Seq<u8>,
    new: Seq<u8>,
    field: int,
    v: u128,
    other: int,
)
    requires
        fits(layout, old),
        0 <= field < layout.fields@.len(),
        0 <= other < layout.fields@.len(),
        field != other,
        field_written(layout, old, new, field, v),
    ensures
        field_value(layout, new, other) == field_value(layout, old, other),
{
    let f = layout.fields@[field];
    let g = layout.fields@[other];
    if field < other {
        lemma_fields_disjoint(layout, field, other);
    } else {
        lemma_fields_disjoint(layout, other, field);
    }
    lemma_field_within(layout, other);
    lemma_non_interference(old, new, f.start as int, f.end as int, v, g.start as int, g.end as int);
}

} // verus!
