//! Planning where each field lies: fields are packed in declaration order
//! from bit 0, each right after the one before it.
use crate::error::BitfieldError;
use crate::width::{best_fit, best_fit_spec};
use vstd::prelude::*;

verus! {

/// A declared field: its name, the width of its type, and the width that the
/// declaration asserts, if it asserts one.
#[derive(Debug, Clone, PartialEq, Eq)]
pub struct FieldDecl {
    pub name: String,
    pub bits: usize,
    pub asserted_bits: Option<usize>,
}

/// A planned field: it occupies the bits `[start, end)`, and `container_width`
/// is the narrowest native width that holds `bit_width` bits.
#[derive(Debug, Clone, PartialEq, Eq)]
pub struct FieldSpec {
    pub name: String,
    pub bit_width: usize,
    pub container_width: usize,
    pub start: usize,
    pub end: usize,
}

/// The planned fields of a packed struct, `total_bits` bits in all.
#[derive(Debug, Clone, PartialEq, Eq)]
pub struct Layout {
    pub total_bits: usize,
    pub fields: Vec<FieldSpec>,
}

impl Layout {
    /// The fields are contiguous, ordered, cover `[0, total_bits)` exactly,
    /// and `total_bits` is a whole number of bytes.
    pub open spec fn wf(&self) -> bool {
        let fs = self.fields@;
        &&& self.total_bits % 8 == 0
        &&& forall|i: int|
            #![trigger fs[i]]
            0 <= i < fs.len() ==> {
                &&& fs[i].bit_width <= 128
                &&& fs[i].end == fs[i].start + fs[i].bit_width
                &&& fs[i].container_width == best_fit_spec(fs[i].bit_width as nat).spec_bits()
            }
        &&& forall|i: int| 0 <= i < fs.len() - 1 ==> #[trigger] fs[i].end == fs[i + 1].start
        &&& fs.len() == 0 ==> self.total_bits == 0
        &&& fs.len() > 0 ==> fs[0].start == 0 && fs.last().end == self.total_bits
    }
}

/// A field that comes before another ends no later than the other starts,
/// and every field ends within the layout.
pub proof fn lemma_fields_disjoint(layout: Layout, i: int, j: int)
    requires
        layout.wf(),
        0 <= i < j < layout.fields@.len(),
    ensures
        layout.fields@[i].end <= layout.fields@[j].start,
        layout.fields@[j].end <= layout.total_bits,
    decreases j - i,
{
    let fs = layout.fields@;
    assert(fs[j - 1].end == fs[j].start);
    if i < j - 1 {
        lemma_fields_disjoint(layout, i, j - 1);
    }
    lemma_field_within(layout, j);
}

/// Every field ends within the layout.
pub proof fn lemma_field_within(layout: Layout, j: int)
    requires
        layout.wf(),
        0 <= j < layout.fields@.len(),
    ensures
        layout.fields@[j].start <= layout.fields@[j].end <= layout.total_bits,
    decreases layout.fields@.len() - j,
{
    let fs = layout.fields@;
    assert(fs[j].end == fs[j].start + fs[j].bit_width);
    if j < fs.len() - 1 {
        assert(fs[j].end == fs[j + 1].start);
        lemma_field_within(layout, j + 1);
    }
}

/// The sum of the declared widths.
pub open spec fn bits_sum(decls: Seq<FieldDecl>) -> nat
    decreases decls.len(),
{
    if decls.len() == 0 {
        0
    } else {
        bits_sum(decls.drop_last()) + decls.last().bits as nat
    }
}

/// What is wrong with one declared field, if anything: an asserted width that
/// differs from the type's, or a width that no native integer holds.
pub open spec fn field_error(d: FieldDecl) -> Option<BitfieldError> {
    match d.asserted_bits {
        Some(a) if a != d.bits => Some(
            BitfieldError::WidthMismatch { field_name: d.name, expected: a, actual: d.bits },
        ),
        _ => if d.bits > 128 {
            Some(BitfieldError::UnsupportedWidth)
        } else {
            None
        },
    }
}

/// The error of the first faulty field, in declaration order.
pub open spec fn first_field_error(decls: Seq<FieldDecl>) -> Option<BitfieldError>
    decreases decls.len(),
{
    if decls.len() == 0 {
        None
    } else {
        match first_field_error(decls.drop_last()) {
            Some(e) => Some(e),
            None => field_error(decls.last()),
        }
    }
}

/// Why the declared fields make no layout, if they do not.
pub open spec fn plan_error(decls: Seq<FieldDecl>) -> Option<BitfieldError> {
    match first_field_error(decls) {
        Some(e) => Some(e),
        None => if bits_sum(decls) % 8 != 0 {
            Some(BitfieldError::MisalignedLayout)
        } else {
            None
        },
    }
}

proof fn lemma_prefix_facts(decls: Seq<FieldDecl>, k: int)
    requires
        0 <= k <= decls.len(),
    ensures
        bits_sum(decls.take(k)) <= bits_sum(decls),
        first_field_error(decls.take(k)) is Some ==> first_field_error(decls)
            == first_field_error(decls.take(k)),
    decreases decls.len(),
{
    if k == decls.len() {
        assert(decls.take(k) =~= decls);
    } else {
        assert(decls.drop_last().take(k) =~= decls.take(k));
        lemma_prefix_facts(decls.drop_last(), k);
    }
}

/// Plans the layout of the declared fields, in order: each field occupies the
/// bits right after those of the field before it.
pub fn plan(decls: &Vec<FieldDecl>) -> (r: Result<Layout, BitfieldError>)
    requires
        bits_sum(decls@) <= usize::MAX,
    ensures
        plan_error(decls@) matches Some(e) ==> r == Err::<Layout, BitfieldError>(e),
        plan_error(decls@) is None ==> (r matches Ok(l) && l.wf() && l.total_bits == bits_sum(
            decls@,
        ) && l.fields@.len() == decls@.len() && (forall|i: int|
            #![trigger l.fields@[i]]
            0 <= i < decls@.len() ==> {
                &&& l.fields@[i].name == decls@[i].name
                &&& l.fields@[i].bit_width == decls@[i].bits
                &&& l.fields@[i].start == bits_sum(decls@.take(i))
            })),
{
    let n: usize = decls.len();
    let mut fields: Vec<FieldSpec> = Vec::new();
    let mut offset: usize = 0;
    let mut i: usize = 0;
    while i < n
        invariant
            i <= n,
            n == decls@.len(),
            bits_sum(decls@) <= usize::MAX,
            fields@.len() == i,
            offset == bits_sum(decls@.take(i as int)),
            first_field_error(decls@.take(i as int)) is None,
            forall|k: int|
                #![trigger fields@[k]]
                0 <= k < i ==> {
                    &&& fields@[k].name == decls@[k].name
                    &&& fields@[k].bit_width == decls@[k].bits
                    &&& fields@[k].bit_width <= 128
                    &&& fields@[k].start == bits_sum(decls@.take(k))
                    &&& fields@[k].end == fields@[k].start + fields@[k].bit_width
                    &&& fields@[k].container_width == best_fit_spec(
                        fields@[k].bit_width as nat,
                    ).spec_bits()
                },
            forall|k: int| 0 <= k < i - 1 ==> #[trigger] fields@[k].end == fields@[k + 1].start,
            i > 0 ==> fields@[0].start == 0 && fields@[i - 1].end == offset,
        decreases n - i,
    {
        let d = &decls[i];
        let ghost old_fields = fields;
        proof {
            assert(decls@.take(i + 1).drop_last() =~= decls@.take(i as int));
            assert(decls@.take(i + 1).last() == decls@[i as int]);
            lemma_prefix_facts(decls@, i + 1);
        }
        match d.asserted_bits {
            Some(a) => {
                if a != d.bits {
                    return Err(
                        BitfieldError::WidthMismatch {
                            field_name: d.name.clone(),
                            expected: a,
                            actual: d.bits,
                        },
                    );
                }
            },
            None => {},
        }
        let container = match best_fit(d.bits) {
            Ok(w) => w,
            Err(e) => {
                return Err(e);
            },
        };
        let end: usize = offset + d.bits;
        fields.push(
            FieldSpec {
                name: d.name.clone(),
                bit_width: d.bits,
                container_width: container.bits(),
                start: offset,
                end,
            },
        );
        proof {
            assert(bits_sum(decls@.take(i + 1)) == offset + d.bits);
            assert(fields@[i as int].start == bits_sum(decls@.take(i as int)));
            assert(fields@.drop_last() == old_fields@);
        }
        offset = end;
        i = i + 1;
    }
    proof {
        assert(decls@.take(n as int) =~= decls@);
    }
    if offset % 8 != 0 {
        return Err(BitfieldError::MisalignedLayout);
    }
    Ok(Layout { total_bits: offset, fields })
}

} // verus!
