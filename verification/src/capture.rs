//! One captured call, as it waits in the queue.

use crate::encoding::{pad_name, stored_name};
use crate::row::{Epoch, FieldType, Row, RID};
use vstd::prelude::*;

verus! {

/// A reference to a Python object, `pyo3::Py`: carried along, never looked
/// into.
#[verifier::external_type_specification]
#[verifier::external_body]
#[verifier::reject_recursive_types(T)]
pub struct ExPy<T>(pyo3::Py<T>);

/// The type of any Python object, `pyo3::PyAny`: a marker for `pyo3::Py`.
#[verifier::external_type_specification]
#[verifier::external_body]
pub struct ExPyAny(pyo3::PyAny);

/// A call as the embedding layer reports it.
#[derive(Debug)]
pub struct Capture {
    pub name: String,
    /// The call's arguments; kept for later use and not interpreted.
    pub args: Vec<pyo3::PyObject>,
    pub start: Epoch,
    pub end: Epoch,
}

/// The time between `start` and `end`: `end - start`, taken modulo 2^128
/// where `end` lies before `start`.
pub open spec fn elapsed(start: Epoch, end: Epoch) -> Epoch {
    if start <= end {
        (end - start) as u128
    } else {
        (end + 0x1_0000_0000_0000_0000_0000_0000_0000_0000 - start) as u128
    }
}

/// The stored form of a name given as text: the first 64 bytes of its
/// UTF-8 encoding, padded with zeros.
pub open spec fn name_key_of(name: Seq<char>) -> FieldType {
    FieldType::Name(stored_name(vstd::utf8::encode_utf8(name)))
}

/// The fields of the row of a capture: its name as stored, its start, its
/// end, and the time between them.
pub open spec fn row_fields(name: Seq<char>, start: Epoch, end: Epoch) -> Seq<FieldType> {
    seq![
        name_key_of(name),
        FieldType::Epoch(start),
        FieldType::Epoch(end),
        FieldType::Epoch(elapsed(start, end)),
    ]
}

/// The stored form of a name given as text.
pub fn name_key(name: &str) -> (key: FieldType)
    ensures
        key == name_key_of(name@),
{
    FieldType::Name(pad_name(name.as_bytes()))
}

/// Whether storing the name cuts it: whether it is longer than 64 bytes.
pub fn is_truncated(name: &str) -> (cut: bool)
    ensures
        cut == (vstd::utf8::encode_utf8(name@).len() > 64),
{
    name.as_bytes().len() > 64
}

/// The time between `start` and `end`.
pub fn time_between(start: Epoch, end: Epoch) -> (delta: Epoch)
    ensures
        delta == elapsed(start, end),
{
    if start <= end {
        end - start
    } else {
        u128::MAX - (start - end) + 1
    }
}

impl Capture {
    /// The fields of the row that this capture becomes.
    pub open spec fn fields(&self) -> Seq<FieldType> {
        row_fields(self.name@, self.start, self.end)
    }

    /// The row with id `id` that this capture becomes: name, start, end,
    /// and the time between start and end.
    pub fn to_row(&self, id: RID) -> (row: Row)
        ensures
            row.id == id,
            row.fields@ == self.fields(),
    {
        let mut fields: Vec<FieldType> = Vec::new();
        fields.push(name_key(self.name.as_str()));
        fields.push(FieldType::Epoch(self.start));
        fields.push(FieldType::Epoch(self.end));
        fields.push(FieldType::Epoch(time_between(self.start, self.end)));
        assert(fields@ =~= self.fields());
        Row { id, fields }
    }
}

} // verus!
