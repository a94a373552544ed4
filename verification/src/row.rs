//! Field values and rows.

use crate::encoding::{decimal, le_bytes, strip_name, stripped, write_decimal};
use vstd::prelude::*;

verus! {

/// Identifies one logical record across all columns.
pub type RID = usize;

/// Nanoseconds since the Unix epoch.
pub type Epoch = u128;

/// A value of one of the fixed-width kinds that a column can hold.
#[derive(Debug, Clone, Copy, PartialEq, Eq, PartialOrd, Ord)]
pub enum FieldType {
    /// Sixty-four raw bytes, zero-padded on the right.
    Name([u8; 64]),
    /// An unsigned 128-bit timestamp.
    Epoch(Epoch),
}

/// One record: its id and one value per column, in column order.
#[derive(Debug, Clone, PartialEq)]
pub struct Row {
    pub id: RID,
    pub fields: Vec<FieldType>,
}

/// The number of bytes that a value of this kind takes in a page.
pub open spec fn field_width(v: FieldType) -> nat {
    match v {
        FieldType::Name(_) => 64,
        FieldType::Epoch(_) => 16,
    }
}

/// The bytes of a value as a page holds them: a name as it is, an epoch as
/// sixteen bytes, least significant first.
pub open spec fn field_bytes(v: FieldType) -> Seq<u8> {
    match v {
        FieldType::Name(a) => a@,
        FieldType::Epoch(e) => le_bytes(e as nat, 16),
    }
}

/// Whether two values are of the same kind.
pub open spec fn same_kind(a: FieldType, b: FieldType) -> bool {
    (a is Name) == (b is Name)
}

/// What `String::from_utf8_lossy` makes of a byte string.
pub uninterp spec fn lossy_text(bytes: Seq<u8>) -> Seq<char>;

/// What `to_string` returns: a name's bytes up to its padding read as text,
/// an epoch in decimal.
pub open spec fn field_text(v: FieldType) -> Seq<char> {
    match v {
        FieldType::Name(a) => lossy_text(stripped(a@)),
        FieldType::Epoch(e) => decimal(e as nat),
    }
}

/// Calls `String::from_utf8_lossy` and takes the result as an owned string.
/// Valid UTF-8 comes back as the text that it encodes; in any other input
/// the standard library replaces each invalid sequence, and the contract
/// only names the result.
#[verifier::external_body]
fn text_of_bytes(bytes: &Vec<u8>) -> (text: String)
    ensures
        text@ == lossy_text(bytes@),
        vstd::utf8::valid_utf8(bytes@) ==> vstd::utf8::encode_utf8(text@) == bytes@,
{
    String::from_utf8_lossy(bytes).into_owned()
}

impl FieldType {
    /// The number of bytes that this value takes in a page: 64 or 16.
    pub fn width(&self) -> (w: usize)
        ensures
            w == field_width(*self),
    {
        match self {
            FieldType::Name(_) => 64,
            FieldType::Epoch(_) => 16,
        }
    }

    /// Whether two values are equal: same kind, same bytes or same number.
    pub fn same(&self, other: &FieldType) -> (r: bool)
        ensures
            r == (*self == *other),
    {
        match (self, other) {
            (FieldType::Epoch(x), FieldType::Epoch(y)) => *x == *y,
            (FieldType::Name(x), FieldType::Name(y)) => {
                let mut i: usize = 0;
                let mut equal = true;
                while i < 64
                    invariant
                        i <= 64,
                        equal == (forall|j: int| 0 <= j < i ==> x[j] == y[j]),
                    decreases 64 - i,
                {
                    if x[i] != y[i] {
                        equal = false;
                    }
                    i += 1;
                }
                proof {
                    if equal {
                        assert(*x =~= *y);
                    }
                }
                equal
            },
            _ => false,
        }
    }

    /// A name as text, without its padding; an epoch in decimal.
    pub fn to_string(&self) -> (text: String)
        ensures
            text@ == field_text(*self),
            self matches FieldType::Name(a) ==> (vstd::utf8::valid_utf8(stripped(a@))
                ==> vstd::utf8::encode_utf8(text@) == stripped(a@)),
    {
        match self {
            FieldType::Name(a) => {
                let bytes = strip_name(a);
                text_of_bytes(&bytes)
            },
            FieldType::Epoch(e) => {
                let mut out = String::new();
                write_decimal(*e, &mut out);
                assert(out@ =~= decimal(*e as nat));
                out
            },
        }
    }
}

impl Row {
    /// A row with the given id and fields.
    pub fn new(id: RID, fields: Vec<FieldType>) -> (row: Row)
        ensures
            row.id == id,
            row.fields == fields,
    {
        Row { id, fields }
    }
}

/// Every value takes exactly its width in bytes.
pub proof fn lemma_field_bytes_len(v: FieldType)
    ensures
        field_bytes(v).len() == field_width(v),
{
    crate::encoding::lemma_le_bytes_len(
        match v {
            FieldType::Epoch(e) => e as nat,
            _ => 0,
        },
        16,
    );
}

} // verus!
