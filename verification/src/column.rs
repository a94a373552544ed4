//! One append-only sequence of values of one kind, kept in the buffer pool.

use crate::bufferpool::{addressable, slot, with_slot, Bufferpool};
use crate::error::StoreError;
use crate::page::decoded;
use crate::row::{field_bytes, field_width, same_kind, FieldType};
use vstd::prelude::*;

verus! {

/// What a column knows of itself.
pub struct ColumnMetadata {
    /// Which column it is.
    pub column_number: usize,
    /// How many values the column has received; the next value goes here.
    pub current_index: usize,
    pub name: String,
    /// A value of the kind that the column holds.
    pub field_type: FieldType,
}

impl ColumnMetadata {
    fn new(name: String, column_number: usize, field_type: FieldType) -> (meta: ColumnMetadata)
        ensures
            meta.column_number == column_number,
            meta.current_index == 0,
            meta.name == name,
            meta.field_type == field_type,
    {
        ColumnMetadata { column_number, current_index: 0, name, field_type }
    }
}

/// A typed view over the buffer pool; it holds no values itself.
pub struct Column {
    metadata: ColumnMetadata,
}

impl Column {
    /// How many values the column has received.
    pub closed spec fn len(&self) -> nat {
        self.metadata.current_index as nat
    }

    /// Which column of the pool it is.
    pub closed spec fn number(&self) -> nat {
        self.metadata.column_number as nat
    }

    /// A value of the kind that the column holds.
    pub closed spec fn kind(&self) -> FieldType {
        self.metadata.field_type
    }

    /// The column's name.
    pub closed spec fn title(&self) -> Seq<char> {
        self.metadata.name@
    }

    /// The width of the column's values: 64 for names, 16 for epochs.
    pub open spec fn width(&self) -> nat {
        field_width(self.kind())
    }

    /// Whether the column can take one more value: its next index is below
    /// `usize::MAX` and the pool can address the slot.
    pub open spec fn has_room(&self, column_count: nat) -> bool {
        &&& self.len() < usize::MAX
        &&& addressable(self.len(), self.number(), self.width(), column_count)
    }

    /// An empty column with the given name and number, for values of the
    /// kind of `field_type`.
    pub fn new(name: String, column_number: usize, field_type: FieldType) -> (column: Column)
        ensures
            column.len() == 0,
            column.number() == column_number,
            column.kind() == field_type,
            column.title() == name@,
    {
        Column { metadata: ColumnMetadata::new(name, column_number, field_type) }
    }

    /// Appends `value`: writes it at the column's next index and moves the
    /// index on. A value of the other kind is rejected; so is a value for
    /// which the column has no room. A rejected value changes nothing.
    pub fn insert(&mut self, bp: &mut Bufferpool, value: &FieldType) -> (res: Result<
        (),
        StoreError,
    >)
        requires
            old(bp).wf(),
        ensures
            final(bp).wf(),
            final(bp).limit() == old(bp).limit(),
            final(bp).columns() == old(bp).columns(),
            final(bp).on_file() == old(bp).on_file(),
            final(self).number() == old(self).number(),
            final(self).kind() == old(self).kind(),
            final(self).title() == old(self).title(),
            match res {
                Ok(()) => {
                    &&& same_kind(*value, old(self).kind())
                    &&& old(self).has_room(old(bp).columns())
                    &&& final(self).len() == old(self).len() + 1
                    &&& final(bp)@ == with_slot(
                        old(bp)@,
                        old(self).len(),
                        old(self).number(),
                        old(self).width(),
                        old(bp).columns(),
                        field_bytes(*value),
                    )
                },
                Err(e) => {
                    &&& final(self).len() == old(self).len()
                    &&& final(bp)@ == old(bp)@
                    &&& final(bp).ids() == old(bp).ids()
                    &&& final(bp).next_page_id() == old(bp).next_page_id()
                    &&& e == if !same_kind(*value, old(self).kind()) {
                        StoreError::TypeMismatch
                    } else {
                        StoreError::OutOfRange
                    }
                    &&& same_kind(*value, old(self).kind()) ==> !old(self).has_room(
                        old(bp).columns(),
                    )
                },
            },
    {
        let matches = match (value, &self.metadata.field_type) {
            (FieldType::Name(_), FieldType::Name(_)) => true,
            (FieldType::Epoch(_), FieldType::Epoch(_)) => true,
            _ => false,
        };
        if !matches {
            return Err(StoreError::TypeMismatch);
        }
        let i = self.metadata.current_index;
        if i == usize::MAX {
            return Err(StoreError::OutOfRange);
        }
        // Index is auto-incremented
        match bp.insert(i, self.metadata.column_number, value) {
            Ok(()) => {
                self.metadata.current_index = i + 1;
                Ok(())
            },
            Err(e) => Err(e),
        }
    }

    /// The value at `index`. Nothing where the column never received a
    /// value at `index`, or where the page that would hold it is missing.
    pub fn fetch(&self, bp: &mut Bufferpool, index: usize) -> (res: Option<FieldType>)
        requires
            old(bp).wf(),
        ensures
            final(bp).wf(),
            final(bp)@ == old(bp)@,
            final(bp).limit() == old(bp).limit(),
            final(bp).columns() == old(bp).columns(),
            final(bp).next_page_id() == old(bp).next_page_id(),
            final(bp).on_file() == old(bp).on_file(),
            res == if index < self.len() {
                match slot(old(bp)@, index as nat, self.number(), self.width(), old(bp).columns()) {
                    Some(bytes) => Some(decoded(bytes, self.width())),
                    None => None,
                }
            } else {
                None
            },
    {
        if index >= self.metadata.current_index {
            return None;
        }
        let field_type_size: usize = match self.metadata.field_type {
            FieldType::Name(_) => 64,
            FieldType::Epoch(_) => 16,
        };
        bp.fetch(index, self.metadata.column_number, field_type_size)
    }

    /// How many values the column has received.
    pub fn current_index(&self) -> (n: usize)
        ensures
            n == self.len(),
    {
        self.metadata.current_index
    }

    /// Which column of the pool it is.
    pub fn column_number(&self) -> (n: usize)
        ensures
            n == self.number(),
    {
        self.metadata.column_number
    }

    /// A value of the kind that the column holds.
    pub fn field_type(&self) -> (kind: FieldType)
        ensures
            kind == self.kind(),
    {
        self.metadata.field_type
    }
}

} // verus!
