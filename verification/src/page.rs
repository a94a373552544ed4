//! One fixed-size block of fixed-width slots.

use crate::disk::{Disk, PageID, PAGE_SIZE};
use crate::encoding::{
    decimal, decimal_value, digit_value, epoch_from_bytes, epoch_to_bytes, is_decimal, is_digit,
    le_value, lemma_decimal_of_value, lemma_decimal_spells, lemma_decimal_value_grows,
    lemma_epoch_round_trip, lemma_stored_name, padded, stored_name, write_decimal,
};
use crate::error::StoreError;
use crate::row::{field_bytes, field_width, FieldType};
use vstd::prelude::*;
use vstd::string::{StrSliceExecFns, StringExecFns};

verus! {

/// `block` with `data` written over it from byte `at` on.
pub open spec fn splice(block: Seq<u8>, at: int, data: Seq<u8>) -> Seq<u8> {
    Seq::new(
        block.len(),
        |i: int|
            if at <= i < at + data.len() {
                data[i - at]
            } else {
                block[i]
            },
    )
}

/// A block of 4096 zero bytes.
pub open spec fn zero_block() -> Seq<u8> {
    Seq::new(4096, |i: int| 0u8)
}

/// The value that a slot of `width` bytes holding `slot` stands for: a name
/// for width 64, an epoch, least significant byte first, for any other
/// width.
pub open spec fn decoded(slot: Seq<u8>, width: nat) -> FieldType {
    if width == 64 {
        FieldType::Name(stored_name(slot))
    } else {
        FieldType::Epoch(le_value(slot) as u128)
    }
}

/// A slot that holds the bytes of a value stands for that value.
pub proof fn lemma_decoded_field(v: FieldType)
    ensures
        decoded(field_bytes(v), field_width(v)) == v,
{
    match v {
        FieldType::Name(a) => {
            lemma_stored_name(a@);
            assert(padded(a@) =~= a@);
            assert(stored_name(a@) =~= a);
        },
        FieldType::Epoch(e) => {
            lemma_epoch_round_trip(e);
        },
    }
}

/// The file name of a page: `page_`, the id in decimal, `.data`.
pub open spec fn page_file_name(pid: PageID) -> Seq<char> {
    "page_"@ + decimal(pid as nat) + ".data"@
}

/// How a page's file name is made up: `page_`, then the decimal form of
/// the id, then `.data`.
pub proof fn lemma_page_file_name(pid: PageID)
    ensures
        ({
            let name = page_file_name(pid);
            let digits = decimal(pid as nat);
            &&& is_decimal(digits)
            &&& decimal_value(digits) == pid
            &&& name.len() == digits.len() + 10
            &&& name[0] == 'p' && name[1] == 'a' && name[2] == 'g' && name[3] == 'e' && name[4]
                == '_'
            &&& name.subrange(5, 5 + digits.len() as int) == digits
            &&& name[name.len() - 5] == '.' && name[name.len() - 4] == 'd' && name[name.len() - 3]
                == 'a' && name[name.len() - 2] == 't' && name[name.len() - 1] == 'a'
        }),
{
    reveal_strlit("page_");
    reveal_strlit(".data");
    lemma_decimal_spells(pid as nat);
    let name = page_file_name(pid);
    let digits = decimal(pid as nat);
    assert(name.subrange(5, 5 + digits.len() as int) =~= digits);
}

/// The number of a decimal digit; nothing for any other character.
fn digit_of(c: char) -> (res: Option<usize>)
    ensures
        match res {
            Some(d) => is_digit(c) && d == digit_value(c),
            None => !is_digit(c),
        },
{
    if c == '0' {
        Some(0)
    } else if c == '1' {
        Some(1)
    } else if c == '2' {
        Some(2)
    } else if c == '3' {
        Some(3)
    } else if c == '4' {
        Some(4)
    } else if c == '5' {
        Some(5)
    } else if c == '6' {
        Some(6)
    } else if c == '7' {
        Some(7)
    } else if c == '8' {
        Some(8)
    } else if c == '9' {
        Some(9)
    } else {
        None
    }
}

/// Whether `name` begins with `page_` and ends with `.data`, with at least
/// one character between them.
pub open spec fn is_framed(name: Seq<char>) -> bool {
    &&& name.len() >= 11
    &&& name[0] == 'p' && name[1] == 'a' && name[2] == 'g' && name[3] == 'e' && name[4] == '_'
    &&& name[name.len() - 5] == '.' && name[name.len() - 4] == 'd' && name[name.len() - 3]
        == 'a' && name[name.len() - 2] == 't' && name[name.len() - 1] == 'a'
}

/// What stands between `page_` and `.data`.
pub open spec fn framed_part(name: Seq<char>) -> Seq<char> {
    name.subrange(5, name.len() - 5)
}

/// A page's file name is framed, and holds the decimal form of the id.
proof fn lemma_file_name_is_framed(pid: PageID)
    ensures
        is_framed(page_file_name(pid)),
        framed_part(page_file_name(pid)) == decimal(pid as nat),
{
    lemma_page_file_name(pid);
    let name = page_file_name(pid);
    assert(framed_part(name) =~= name.subrange(5, 5 + decimal(pid as nat).len() as int));
}

/// A name that is not framed, or that holds no decimal form, or one of a
/// number beyond `usize::MAX`, is no page's file name.
proof fn lemma_not_a_file_name(name: Seq<char>, k: int)
    requires
        !is_framed(name) || !is_decimal(framed_part(name)) || (0 <= k <= framed_part(name).len()
            && decimal_value(framed_part(name).take(k)) > usize::MAX),
    ensures
        forall|pid: PageID| name != #[trigger] page_file_name(pid),
{
    assert forall|pid: PageID| name != #[trigger] page_file_name(pid) by {
        if name == page_file_name(pid) {
            lemma_file_name_is_framed(pid);
            lemma_decimal_spells(pid as nat);
            if is_decimal(framed_part(name)) {
                lemma_decimal_value_grows(framed_part(name), k);
            }
        }
    }
}

/// A framed name that holds the decimal form of `pid` is the file name of
/// page `pid`.
proof fn lemma_is_file_name(name: Seq<char>, pid: PageID)
    requires
        is_framed(name),
        is_decimal(framed_part(name)),
        decimal_value(framed_part(name)) == pid,
    ensures
        name == page_file_name(pid),
{
    reveal_strlit("page_");
    reveal_strlit(".data");
    lemma_decimal_of_value(framed_part(name));
    assert(name =~= page_file_name(pid));
}

/// The id of the page whose backing file is called `name`; nothing where
/// no page's file has that name.
pub fn page_id_of(name: &str) -> (res: Option<PageID>)
    ensures
        match res {
            Some(pid) => name@ == page_file_name(pid),
            None => forall|pid: PageID| name@ != #[trigger] page_file_name(pid),
        },
{
    let n = name.unicode_len();
    if n < 11 {
        proof {
            lemma_not_a_file_name(name@, 0);
        }
        return None;
    }
    let framed = name.get_char(0) == 'p' && name.get_char(1) == 'a' && name.get_char(2) == 'g'
        && name.get_char(3) == 'e' && name.get_char(4) == '_' && name.get_char(n - 5) == '.'
        && name.get_char(n - 4) == 'd' && name.get_char(n - 3) == 'a' && name.get_char(n - 2)
        == 't' && name.get_char(n - 1) == 'a';
    if !framed {
        proof {
            lemma_not_a_file_name(name@, 0);
        }
        return None;
    }
    let m = n - 10;
    let ghost digits = framed_part(name@);
    if m > 1 && name.get_char(5) == '0' {
        proof {
            assert(digits[0] == '0');
            lemma_not_a_file_name(name@, 0);
        }
        return None;
    }
    let mut value: usize = 0;
    let mut i: usize = 0;
    proof {
        assert(digits.take(0) =~= Seq::<char>::empty());
    }
    while i < m
        invariant
            i <= m,
            m == digits.len(),
            n == name@.len(),
            n == m + 10,
            digits == framed_part(name@),
            forall|j: int| 0 <= j < i ==> is_digit(#[trigger] digits[j]),
            value == decimal_value(digits.take(i as int)),
        decreases m - i,
    {
        let c = name.get_char(5 + i);
        proof {
            assert(digits[i as int] == c);
            assert(digits.take(i + 1).drop_last() =~= digits.take(i as int));
            assert(digits.take(i + 1).last() == c);
        }
        let d = match digit_of(c) {
            Some(d) => d,
            None => {
                proof {
                    lemma_not_a_file_name(name@, 0);
                }
                return None;
            },
        };
        let next = match value.checked_mul(10) {
            Some(tens) => tens.checked_add(d),
            None => None,
        };
        value = match next {
            Some(v) => v,
            None => {
                proof {
                    lemma_not_a_file_name(name@, i + 1);
                }
                return None;
            },
        };
        i += 1;
    }
    proof {
        assert(digits.take(m as int) =~= digits);
        lemma_is_file_name(name@, value);
    }
    Some(value)
}

/// A page that was stored and is loaded again has the bytes that it had:
/// the disk after `write_page` holds, under the page's id, exactly the
/// bytes that `open` then loads.
pub proof fn lemma_stored_page_reloads(disk: Map<PageID, Seq<u8>>, page: Page)
    ensures
        disk.insert(page.id(), page.bytes()).contains_key(page.id()),
        disk.insert(page.id(), page.bytes())[page.id()] == page.bytes(),
        disk.insert(page.id(), page.bytes())[page.id()].len() == PAGE_SIZE,
{
    page.lemma_bytes_len();
}

/// A value that was written into a page is the value that is read from the
/// same place, and the bytes outside its slot are as they were.
pub proof fn lemma_splice_then_decode(block: Seq<u8>, at: int, value: FieldType)
    requires
        0 <= at,
        at + field_width(value) <= block.len(),
    ensures
        decoded(
            splice(block, at, field_bytes(value)).subrange(at, at + field_width(value)),
            field_width(value),
        ) == value,
        splice(block, at, field_bytes(value)).len() == block.len(),
        forall|i: int|
            0 <= i < block.len() && !(at <= i < at + field_width(value)) ==> splice(
                block,
                at,
                field_bytes(value),
            )[i] == block[i],
{
    crate::row::lemma_field_bytes_len(value);
    lemma_decoded_field(value);
    assert(splice(block, at, field_bytes(value)).subrange(at, at + field_width(value))
        =~= field_bytes(value));
}

/// Writes the bytes of `value` into `data` from byte `at` on.
pub fn encode_field(data: &mut [u8; PAGE_SIZE], at: usize, value: &FieldType)
    requires
        at + field_width(*value) <= PAGE_SIZE,
    ensures
        final(data)@ == splice(old(data)@, at as int, field_bytes(*value)),
{
    match value {
        FieldType::Name(a) => {
            let mut i: usize = 0;
            while i < 64
                invariant
                    i <= 64,
                    at + 64 <= PAGE_SIZE,
                    data@ == splice(old(data)@, at as int, a@.subrange(0, i as int)),
                decreases 64 - i,
            {
                data[at + i] = a[i];
                proof {
                    assert(data@ =~= splice(old(data)@, at as int, a@.subrange(0, i + 1)));
                }
                i += 1;
            }
            proof {
                assert(a@.subrange(0, 64) =~= a@);
            }
        },
        FieldType::Epoch(e) => {
            let bytes = epoch_to_bytes(*e);
            let mut i: usize = 0;
            while i < 16
                invariant
                    i <= 16,
                    at + 16 <= PAGE_SIZE,
                    data@ == splice(old(data)@, at as int, bytes@.subrange(0, i as int)),
                decreases 16 - i,
            {
                data[at + i] = bytes[i];
                proof {
                    assert(data@ =~= splice(old(data)@, at as int, bytes@.subrange(0, i + 1)));
                }
                i += 1;
            }
            proof {
                assert(bytes@.subrange(0, 16) =~= bytes@);
            }
        },
    }
}

/// Reads the value in the slot of `width` bytes that starts at byte `at`:
/// a name for width 64, an epoch for width 16.
pub fn decode_field(data: &[u8; PAGE_SIZE], at: usize, width: usize) -> (v: FieldType)
    requires
        width == 64 || width == 16,
        at + width <= PAGE_SIZE,
    ensures
        v == decoded(data@.subrange(at as int, at + width), width as nat),
{
    if width == 64 {
        let mut a: [u8; 64] = [0u8; 64];
        let mut i: usize = 0;
        while i < 64
            invariant
                i <= 64,
                at + 64 <= PAGE_SIZE,
                forall|j: int| 0 <= j < i ==> a[j] == data[at + j],
            decreases 64 - i,
        {
            a[i] = data[at + i];
            i += 1;
        }
        proof {
            let slot = data@.subrange(at as int, at + 64);
            assert(a@ =~= slot);
            lemma_stored_name(slot);
            assert(padded(slot) =~= slot);
            assert(a =~= stored_name(slot));
        }
        FieldType::Name(a)
    } else {
        let e = epoch_from_bytes(data.as_slice(), at);
        FieldType::Epoch(e)
    }
}

/// One block in memory: its id, its 4096 bytes, how often a value was
/// written into it, and the width of its slots.
#[derive(Debug)]
pub struct Page {
    pid: PageID,
    data: [u8; PAGE_SIZE],
    index: usize,
    // Either 16 or 64
    field_type_size: usize,
}

impl Page {
    #[verifier::type_invariant]
    spec fn slots_are_whole(self) -> bool {
        self.field_type_size == 16 || self.field_type_size == 64
    }

    /// The page's id.
    pub closed spec fn id(&self) -> PageID {
        self.pid
    }

    /// The page's 4096 bytes.
    pub closed spec fn bytes(&self) -> Seq<u8> {
        self.data@
    }

    /// How many values were written into the page since it was made.
    pub closed spec fn written(&self) -> nat {
        self.index as nat
    }

    /// The width of the page's slots: 64 for names, 16 for epochs.
    pub closed spec fn slot_width(&self) -> nat {
        self.field_type_size as nat
    }

    /// A page always has 4096 bytes.
    pub proof fn lemma_bytes_len(&self)
        ensures
            self.bytes().len() == PAGE_SIZE,
    {
    }

    /// An empty page for values of the kind of `field_type`: all bytes zero,
    /// nothing written.
    pub fn new(pid: PageID, field_type: FieldType) -> (page: Page)
        ensures
            page.id() == pid,
            page.bytes() == zero_block(),
            page.written() == 0,
            page.slot_width() == field_width(field_type),
    {
        let field_type_size: usize = match field_type {
            FieldType::Name(_) => 64,
            FieldType::Epoch(_) => 16,
        };
        let page = Page { pid, data: [0u8; PAGE_SIZE], index: 0, field_type_size };
        assert(page.data@ =~= zero_block());
        page
    }

    /// Loads the page's block from the disk. Fails, and leaves the page as
    /// it is, when nothing was ever stored under the page's id.
    pub fn open(&mut self, disk: &Disk) -> (res: Result<(), StoreError>)
        ensures
            final(self).id() == old(self).id(),
            final(self).written() == old(self).written(),
            final(self).slot_width() == old(self).slot_width(),
            match res {
                Ok(()) => disk@.contains_key(old(self).id()) && final(self).bytes()
                    == disk@[old(self).id()],
                Err(e) => e == StoreError::Io && !disk@.contains_key(old(self).id())
                    && final(self).bytes() == old(self).bytes(),
            },
    {
        proof {
            use_type_invariant(&*self);
        }
        match self.read_page(disk) {
            Ok(block) => {
                self.data = block;
                Ok(())
            },
            Err(e) => Err(e),
        }
    }

    /// The name of the page's backing file.
    pub fn get_page_path(&self) -> (path: String)
        ensures
            path@ == page_file_name(self.id()),
    {
        let mut path = String::from_str("page_");
        write_decimal(self.pid as u128, &mut path);
        path.append(".data");
        path
    }

    /// Stores the page's 4096 bytes on the disk under the page's id,
    /// replacing what was there; the id then waits to be written out.
    pub fn write_page(&self, disk: &mut Disk)
        requires
            old(disk).wf(),
        ensures
            final(disk).wf(),
            final(disk)@ == old(disk)@.insert(self.id(), self.bytes()),
            final(disk).pending() == if old(disk).pending().contains(self.id()) {
                old(disk).pending()
            } else {
                old(disk).pending().push(self.id())
            },
            final(disk).pending().contains(self.id()),
            final(disk).on_file() == old(disk).on_file(),
    {
        disk.write(self.pid, self.data);
    }

    /// The block that the disk holds under the page's id. The page itself
    /// does not change.
    pub fn read_page(&self, disk: &Disk) -> (res: Result<[u8; PAGE_SIZE], StoreError>)
        ensures
            match res {
                Ok(block) => disk@.contains_key(self.id()) && block@ == disk@[self.id()],
                Err(e) => e == StoreError::Io && !disk@.contains_key(self.id()),
            },
    {
        match disk.read(self.pid) {
            Some(block) => Ok(block),
            None => Err(StoreError::Io),
        }
    }

    /// Writes `value` into the page from byte `index` on and counts the
    /// write.
    pub fn set_value(&mut self, index: usize, value: FieldType)
        requires
            index + field_width(value) <= PAGE_SIZE,
        ensures
            final(self).id() == old(self).id(),
            final(self).slot_width() == old(self).slot_width(),
            final(self).bytes() == splice(old(self).bytes(), index as int, field_bytes(value)),
            final(self).written() == if old(self).written() < usize::MAX {
                old(self).written() + 1
            } else {
                old(self).written()
            },
    {
        proof {
            use_type_invariant(&*self);
        }
        let mut data = self.data;
        encode_field(&mut data, index, &value);
        self.data = data;
        if self.index < usize::MAX {
            self.index += 1;
        }
    }

    /// Replaces the page's 4096 bytes.
    pub fn set_all_values(&mut self, input: [u8; PAGE_SIZE])
        ensures
            final(self).id() == old(self).id(),
            final(self).slot_width() == old(self).slot_width(),
            final(self).written() == old(self).written(),
            final(self).bytes() == input@,
    {
        proof {
            use_type_invariant(&*self);
        }
        self.data = input;
    }

    /// The value in the slot of `width` bytes that starts at byte `index`:
    /// a name for width 64, an epoch for width 16.
    pub fn decode(&self, index: usize, width: usize) -> (v: FieldType)
        requires
            width == 64 || width == 16,
            index + width <= PAGE_SIZE,
        ensures
            v == decoded(self.bytes().subrange(index as int, index + width), width as nat),
    {
        decode_field(&self.data, index, width)
    }

    /// The value in the slot that starts at byte `index`, of the kind that
    /// the page holds. Nothing when the slot would reach past the end of
    /// the page.
    pub fn get_value(&self, index: usize) -> (res: Option<FieldType>)
        ensures
            match res {
                Some(v) => index + self.slot_width() <= PAGE_SIZE && v == decoded(
                    self.bytes().subrange(index as int, index + self.slot_width()),
                    self.slot_width(),
                ),
                None => index + self.slot_width() > PAGE_SIZE,
            },
    {
        proof {
            use_type_invariant(self);
        }
        if index <= PAGE_SIZE - self.field_type_size {
            Some(self.decode(index, self.field_type_size))
        } else {
            None
        }
    }

    /// How many values were written into the page since it was made.
    pub fn size(&self) -> (n: usize)
        ensures
            n == self.written(),
    {
        self.index
    }

    /// The number of bytes that a page holds.
    pub fn capacity(&self) -> (n: usize)
        ensures
            n == PAGE_SIZE,
    {
        PAGE_SIZE
    }

    /// The page's id.
    pub fn pid(&self) -> (pid: PageID)
        ensures
            pid == self.id(),
    {
        self.pid
    }

    /// The width of the page's slots.
    pub fn field_type_size(&self) -> (w: usize)
        ensures
            w == self.slot_width(),
            w == 16 || w == 64,
    {
        proof {
            use_type_invariant(self);
        }
        self.field_type_size
    }

    /// A copy of the page's 4096 bytes.
    pub fn values(&self) -> (block: [u8; PAGE_SIZE])
        ensures
            block@ == self.bytes(),
    {
        self.data
    }
}

} // verus!
