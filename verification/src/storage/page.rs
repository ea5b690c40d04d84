//! The page: 4096 bytes that begin with a header of fixed layout, followed by
//! a table of record offsets that grows upward and records that grow downward
//! from the end.
//!
//! | bytes    | header field         | form                    |
//! |----------|----------------------|-------------------------|
//! | 0        | `page_type`          | one byte                |
//! | 1..9     | `page_id`            | 64 bits, little-endian  |
//! | 9..11    | `record_count`       | 16 bits, little-endian  |
//! | 11..13   | `free_space_offset`  | 16 bits, little-endian  |
//! | 13..17   | `checksum`           | 32 bits, little-endian  |

use crate::storage::endian::{
    le_bytes, le_value, lemma_le_bytes_len, lemma_le_bytes_of_value, lemma_le_value_bound,
    lemma_le_value_of_bytes, lemma_radix_values, load_le, overwrite, store_bytes, store_le,
};
use crate::storage::serializer::{
    decode_value, deserialize_value, encodable, encode_value, lemma_decode_encode,
    lemma_encode_value_len, serialize_value, EncodeError, Value, ValueView,
};
use vstd::prelude::*;
use vstd::slice::slice_subrange;

verus! {

/// The size of a page in bytes.
pub const PAGE_SIZE: usize = 4096;

/// The size of the serialized header in bytes.
pub const HEADER_SIZE: usize = 17;

/// The largest number of records in one page.
pub const MAX_RECORDS: usize = 512;

/// What every page begins with.
#[derive(Debug, Clone, Copy, PartialEq, Eq)]
pub struct PageHeader {
    /// The caller's kind of page; this layer gives it no meaning.
    pub page_type: u8,
    /// The page's place in the file: page `i` covers bytes `4096 * i` and on.
    pub page_id: u64,
    /// How many records the page holds.
    pub record_count: u16,
    /// Where the record area begins; the next record will end here.
    pub free_space_offset: u16,
    /// Room for a sum over the page's bytes; zero, and never looked at.
    pub checksum: u32,
}

/// The seventeen bytes that `header` is stored as.
pub open spec fn header_bytes(header: PageHeader) -> Seq<u8> {
    seq![header.page_type] + le_bytes(header.page_id as nat, 8) + le_bytes(
        header.record_count as nat,
        2,
    ) + le_bytes(header.free_space_offset as nat, 2) + le_bytes(header.checksum as nat, 4)
}

/// The header that the first seventeen of `bytes` store.
pub open spec fn parse_header(bytes: Seq<u8>) -> PageHeader {
    PageHeader {
        page_type: bytes[0],
        page_id: le_value(bytes.subrange(1, 9)) as u64,
        record_count: le_value(bytes.subrange(9, 11)) as u16,
        free_space_offset: le_value(bytes.subrange(11, 13)) as u16,
        checksum: le_value(bytes.subrange(13, 17)) as u32,
    }
}

/// A header's bytes are seventeen, and each field lies where the layout says.
pub proof fn lemma_header_bytes_fields(header: PageHeader)
    ensures
        header_bytes(header).len() == HEADER_SIZE,
        header_bytes(header)[0] == header.page_type,
        header_bytes(header).subrange(1, 9) == le_bytes(header.page_id as nat, 8),
        header_bytes(header).subrange(9, 11) == le_bytes(header.record_count as nat, 2),
        header_bytes(header).subrange(11, 13) == le_bytes(header.free_space_offset as nat, 2),
        header_bytes(header).subrange(13, 17) == le_bytes(header.checksum as nat, 4),
{
    lemma_le_bytes_len(header.page_id as nat, 8);
    lemma_le_bytes_len(header.record_count as nat, 2);
    lemma_le_bytes_len(header.free_space_offset as nat, 2);
    lemma_le_bytes_len(header.checksum as nat, 4);
    let bytes = header_bytes(header);
    assert(bytes.subrange(1, 9) =~= le_bytes(header.page_id as nat, 8));
    assert(bytes.subrange(9, 11) =~= le_bytes(header.record_count as nat, 2));
    assert(bytes.subrange(11, 13) =~= le_bytes(header.free_space_offset as nat, 2));
    assert(bytes.subrange(13, 17) =~= le_bytes(header.checksum as nat, 4));
}

/// Parsing a header's bytes gives the header back, whatever follows them.
pub proof fn lemma_parse_header_bytes(header: PageHeader, rest: Seq<u8>)
    ensures
        parse_header(header_bytes(header) + rest) == header,
{
    lemma_header_bytes_fields(header);
    lemma_radix_values();
    let bytes = header_bytes(header);
    let all = bytes + rest;
    assert(all.subrange(1, 9) =~= bytes.subrange(1, 9));
    assert(all.subrange(9, 11) =~= bytes.subrange(9, 11));
    assert(all.subrange(11, 13) =~= bytes.subrange(11, 13));
    assert(all.subrange(13, 17) =~= bytes.subrange(13, 17));
    lemma_le_value_of_bytes(header.page_id as nat, 8);
    lemma_le_value_of_bytes(header.record_count as nat, 2);
    lemma_le_value_of_bytes(header.free_space_offset as nat, 2);
    lemma_le_value_of_bytes(header.checksum as nat, 4);
}

/// Any seventeen bytes are the bytes of the header that they parse to.
pub proof fn lemma_header_bytes_parse(bytes: Seq<u8>)
    requires
        bytes.len() >= HEADER_SIZE,
    ensures
        header_bytes(parse_header(bytes)) == bytes.subrange(0, HEADER_SIZE as int),
{
    lemma_radix_values();
    let id = bytes.subrange(1, 9);
    let count = bytes.subrange(9, 11);
    let free = bytes.subrange(11, 13);
    let sum = bytes.subrange(13, 17);
    lemma_le_value_bound(id);
    lemma_le_value_bound(count);
    lemma_le_value_bound(free);
    lemma_le_value_bound(sum);
    lemma_le_bytes_of_value(id);
    lemma_le_bytes_of_value(count);
    lemma_le_bytes_of_value(free);
    lemma_le_bytes_of_value(sum);
    assert(header_bytes(parse_header(bytes)) =~= bytes.subrange(0, HEADER_SIZE as int));
}

impl PageHeader {
    /// The header of an empty page.
    pub fn new(page_type: u8, page_id: u64) -> (header: Self)
        ensures
            header == (PageHeader {
                page_type,
                page_id,
                record_count: 0,
                free_space_offset: 4096,
                checksum: 0,
            }),
    {
        Self { page_type, page_id, record_count: 0, free_space_offset: PAGE_SIZE as u16, checksum: 0 }
    }

    /// Writes the header over the first seventeen bytes of `buf`.
    pub fn write_to(&self, buf: &mut [u8; PAGE_SIZE])
        ensures
            final(buf)@ == overwrite(old(buf)@, 0, header_bytes(*self)),
    {
        let ghost start = buf@;
        buf[0] = self.page_type;
        store_le(buf, 1, self.page_id, 8);
        store_le(buf, 9, self.record_count as u64, 2);
        store_le(buf, 11, self.free_space_offset as u64, 2);
        store_le(buf, 13, self.checksum as u64, 4);
        proof {
            lemma_header_bytes_fields(*self);
            let bytes = header_bytes(*self);
            assert forall|i: int| 0 <= i < PAGE_SIZE implies buf@[i] == overwrite(
                start,
                0,
                bytes,
            )[i] by {
                if 1 <= i < 9 {
                    assert(bytes[i] == bytes.subrange(1, 9)[i - 1]);
                } else if 9 <= i < 11 {
                    assert(bytes[i] == bytes.subrange(9, 11)[i - 9]);
                } else if 11 <= i < 13 {
                    assert(bytes[i] == bytes.subrange(11, 13)[i - 11]);
                } else if 13 <= i < 17 {
                    assert(bytes[i] == bytes.subrange(13, 17)[i - 13]);
                }
            }
            assert(buf@ =~= overwrite(start, 0, bytes));
        }
    }

    /// Reads the header that the first seventeen bytes of `buf` store.
    pub fn read_from(buf: &[u8; PAGE_SIZE]) -> (header: Self)
        ensures
            header == parse_header(buf@),
    {
        proof {
            lemma_radix_values();
        }
        let page_id: u64 = load_le(buf, 1, 8);
        let record_count: u64 = load_le(buf, 9, 2);
        let free_space_offset: u64 = load_le(buf, 11, 2);
        let checksum: u64 = load_le(buf, 13, 4);
        Self {
            page_type: buf[0],
            page_id,
            record_count: record_count as u16,
            free_space_offset: free_space_offset as u16,
            checksum: checksum as u32,
        }
    }
}

/// Why a record was not inserted.
#[derive(Debug, Clone, Copy, PartialEq, Eq)]
pub enum InsertError {
    /// The value has no encoding.
    Encode(EncodeError),
    /// The page holds 512 records already.
    RecordLimit,
    /// Not even the record's offset fits between the table and the records.
    SlotSpace,
    /// The offset fits, the record does not.
    RecordSpace,
}

impl InsertError {
    /// A sentence for the person who reads the error.
    pub fn message(&self) -> (text: &'static str)
        ensures
            text@ == match *self {
                InsertError::Encode(_) => "String too long"@,
                InsertError::RecordLimit => "Limite de registros atingido"@,
                InsertError::SlotSpace => "Espaço insuficiente para novo offset"@,
                InsertError::RecordSpace => "Espaço insuficiente para registro"@,
            },
    {
        match self {
            InsertError::Encode(inner) => inner.message(),
            InsertError::RecordLimit => "Limite de registros atingido",
            InsertError::SlotSpace => "Espaço insuficiente para novo offset",
            InsertError::RecordSpace => "Espaço insuficiente para registro",
        }
    }
}

/// A page in memory: the header, and the 4096 bytes as they lie in the file.
pub struct Page {
    pub header: PageHeader,
    pub data: [u8; PAGE_SIZE],
}

/// What a [`Page`] stands for: its header and its bytes as a sequence.
pub struct PageView {
    pub header: PageHeader,
    pub data: Seq<u8>,
}

impl View for Page {
    type V = PageView;

    open spec fn view(&self) -> PageView {
        PageView { header: self.header, data: self.data@ }
    }
}

impl PageView {
    /// The page that holds no record yet: zero but for its header.
    pub open spec fn empty(page_type: u8, page_id: u64) -> PageView {
        let header = PageHeader {
            page_type,
            page_id,
            record_count: 0,
            free_space_offset: 4096,
            checksum: 0,
        };
        PageView {
            header,
            data: overwrite(Seq::new(PAGE_SIZE as nat, |i: int| 0u8), 0, header_bytes(header)),
        }
    }

    /// The bytes are a page's worth and begin with the header as it stands.
    pub open spec fn synced(self) -> bool {
        &&& self.data.len() == PAGE_SIZE
        &&& self.data.subrange(0, HEADER_SIZE as int) == header_bytes(self.header)
    }

    /// Where the table keeps the offset of record `index`.
    pub open spec fn slot_pos(index: int) -> int {
        HEADER_SIZE + 2 * index
    }

    /// The offset that the table gives for record `index`.
    pub open spec fn slot(self, index: int) -> nat {
        le_value(self.data.subrange(Self::slot_pos(index), Self::slot_pos(index) + 2))
    }

    /// The bytes between the table and the records.
    pub open spec fn free_space(self) -> int {
        self.header.free_space_offset - Self::slot_pos(self.header.record_count as int)
    }

    /// What reading record `index` gives: nothing beyond the record count,
    /// nothing where the table or the offset leaves the page, nothing where
    /// no value decodes at the offset; else the value that decodes there.
    pub open spec fn read(self, index: int) -> Option<ValueView> {
        if index < 0 || index >= self.header.record_count {
            None
        } else if Self::slot_pos(index) + 2 > PAGE_SIZE {
            None
        } else if self.slot(index) > PAGE_SIZE {
            None
        } else {
            match decode_value(self.data.subrange(self.slot(index) as int, PAGE_SIZE as int)) {
                Some((value, _)) => Some(value),
                None => None,
            }
        }
    }

    /// How inserting `value` ends. The tests come in this order: the value
    /// has an encoding; the page is below 512 records; the two bytes of the
    /// next table entry end before the record area begins; the record,
    /// placed to end where the record area begins, starts behind that entry.
    pub open spec fn insert_outcome(self, value: ValueView) -> Result<(), InsertError> {
        let slot_pos = Self::slot_pos(self.header.record_count as int);
        let data_pos = self.header.free_space_offset - encode_value(value).len();
        if !encodable(value) {
            Err(InsertError::Encode(EncodeError::StringTooLong))
        } else if self.header.record_count >= MAX_RECORDS {
            Err(InsertError::RecordLimit)
        } else if slot_pos + 2 > self.header.free_space_offset {
            Err(InsertError::SlotSpace)
        } else if data_pos < slot_pos + 2 {
            Err(InsertError::RecordSpace)
        } else {
            Ok(())
        }
    }

    /// The page after `value` went in: its encoding ends where the record
    /// area began, the next table entry holds its offset, and the header
    /// counts one record more and has the record area begin at that offset.
    pub open spec fn insert(self, value: ValueView) -> PageView {
        let record = encode_value(value);
        let data_pos = self.header.free_space_offset - record.len();
        let slot_pos = Self::slot_pos(self.header.record_count as int);
        let header = PageHeader {
            record_count: (self.header.record_count + 1) as u16,
            free_space_offset: data_pos as u16,
            ..self.header
        };
        PageView {
            header,
            data: overwrite(
                overwrite(overwrite(self.data, data_pos, record), slot_pos, le_bytes(data_pos as nat, 2)),
                0,
                header_bytes(header),
            ),
        }
    }

    /// The 4096 bytes that go to the file: the header in its layout, then
    /// the page's own bytes from the table on.
    pub open spec fn serialize(self) -> Seq<u8> {
        overwrite(self.data, 0, header_bytes(self.header))
    }

    /// The page that 4096 bytes of the file stand for: the bytes as they
    /// are, and the header that they begin with.
    pub open spec fn deserialize(bytes: Seq<u8>) -> PageView {
        PageView { header: parse_header(bytes), data: bytes }
    }

    /// Where record `index` ends: the first at the end of the page, each
    /// later one where the one before it begins.
    pub open spec fn record_end(self, index: int) -> int {
        if index == 0 {
            PAGE_SIZE as int
        } else {
            self.slot(index - 1) as int
        }
    }

    /// Record `index` lies in the record area, decodes, and ends where it
    /// should.
    pub open spec fn record_ok(self, index: int) -> bool {
        let start = self.slot(index) as int;
        let decoded = decode_value(self.data.subrange(start, PAGE_SIZE as int));
        &&& self.header.free_space_offset <= start <= PAGE_SIZE
        &&& decoded is Some
        &&& start + decoded.unwrap().1 == self.record_end(index)
    }

    /// The layout that an empty page has and that every insert keeps: at
    /// most 512 records; the table ends before the record area begins; the
    /// bytes between them are zero; the records decode and lie end to end
    /// from the end of the page down to the start of the record area.
    pub open spec fn well_formed(self) -> bool {
        &&& self.synced()
        &&& self.header.record_count <= MAX_RECORDS
        &&& 0 <= self.free_space()
        &&& self.header.free_space_offset <= PAGE_SIZE
        &&& self.header.free_space_offset == self.record_end(self.header.record_count as int)
        &&& forall|i: int|
            Self::slot_pos(self.header.record_count as int) <= i < self.header.free_space_offset
                ==> self.data[i] == 0
        &&& forall|k: int| 0 <= k < self.header.record_count ==> #[trigger] self.record_ok(k)
    }

    /// The values that the page holds, in the order in which they went in.
    pub open spec fn records(self) -> Seq<ValueView> {
        Seq::new(self.header.record_count as nat, |k: int| self.read(k).unwrap())
    }
}

/// An empty page is well formed and holds no record.
pub proof fn lemma_empty_well_formed(page_type: u8, page_id: u64)
    ensures
        PageView::empty(page_type, page_id).well_formed(),
        PageView::empty(page_type, page_id).records() == Seq::<ValueView>::empty(),
        forall|index: int| PageView::empty(page_type, page_id).read(index) is None,
{
    let page = PageView::empty(page_type, page_id);
    lemma_header_bytes_fields(page.header);
    assert(page.data.subrange(0, HEADER_SIZE as int) =~= header_bytes(page.header));
    assert(page.records() =~= Seq::<ValueView>::empty());
}

/// A well-formed page gives a value for every index below its record count,
/// and for no other.
pub proof fn lemma_well_formed_reads(page: PageView, index: int)
    requires
        page.well_formed(),
    ensures
        page.read(index) is Some <==> 0 <= index < page.header.record_count,
        0 <= index < page.header.record_count ==> page.read(index) == Some(
            page.records()[index],
        ),
{
    if 0 <= index < page.header.record_count {
        assert(page.record_ok(index));
    }
}

/// How an insert ends, by the free space: a value without an encoding is
/// refused first, then a record beyond the 512th; then the free space
/// decides, which has to hold the two bytes of the offset and the record.
pub proof fn lemma_insert_outcome_by_room(page: PageView, value: ValueView)
    ensures
        !encodable(value) ==> page.insert_outcome(value) == Err::<(), InsertError>(
            InsertError::Encode(EncodeError::StringTooLong),
        ),
        encodable(value) && page.header.record_count >= MAX_RECORDS ==> page.insert_outcome(value)
            == Err::<(), InsertError>(InsertError::RecordLimit),
        encodable(value) && page.header.record_count < MAX_RECORDS && page.free_space() < 2
            ==> page.insert_outcome(value) == Err::<(), InsertError>(InsertError::SlotSpace),
        encodable(value) && page.header.record_count < MAX_RECORDS && 2 <= page.free_space() < 2
            + encode_value(value).len() ==> page.insert_outcome(value) == Err::<(), InsertError>(
            InsertError::RecordSpace,
        ),
        encodable(value) && page.header.record_count < MAX_RECORDS && 2 + encode_value(value).len()
            <= page.free_space() ==> page.insert_outcome(value) == Ok::<(), InsertError>(()),
{
}

/// A record that went into a well-formed page is read back as it went in,
/// under the index that the record count had; the records before it read as
/// they did; and the page is well formed again.
pub proof fn lemma_insert_then_read(page: PageView, value: ValueView)
    requires
        page.well_formed(),
        page.insert_outcome(value) is Ok,
    ensures
        page.insert(value).well_formed(),
        page.insert(value).read(page.header.record_count as int) == Some(value),
        forall|k: int|
            0 <= k < page.header.record_count ==> page.insert(value).read(k) == page.read(k),
        page.insert(value).records() == page.records().push(value),
{
    let after = page.insert(value);
    let count = page.header.record_count as int;
    let free = page.header.free_space_offset as int;
    let record = encode_value(value);
    let data_pos = free - record.len();
    let slot_pos = PageView::slot_pos(count);
    let offset_bytes = le_bytes(data_pos as nat, 2);
    lemma_encode_value_len(value);
    lemma_header_bytes_fields(after.header);
    lemma_le_bytes_len(data_pos as nat, 2);
    lemma_radix_values();
    lemma_le_value_of_bytes(data_pos as nat, 2);

    assert(after.data.subrange(0, HEADER_SIZE as int) =~= header_bytes(after.header));
    assert(after.data.subrange(slot_pos, slot_pos + 2) =~= offset_bytes);
    assert(after.slot(count) == data_pos);
    assert(after.data.subrange(data_pos, PAGE_SIZE as int) =~= record + page.data.subrange(
        free,
        PAGE_SIZE as int,
    ));
    lemma_decode_encode(value, page.data.subrange(free, PAGE_SIZE as int));

    assert forall|k: int| 0 <= k < count implies after.slot(k) == page.slot(k)
        && after.data.subrange(page.slot(k) as int, PAGE_SIZE as int) == page.data.subrange(
        page.slot(k) as int,
        PAGE_SIZE as int,
    ) by {
        assert(page.record_ok(k));
        assert(after.data.subrange(PageView::slot_pos(k), PageView::slot_pos(k) + 2)
            =~= page.data.subrange(PageView::slot_pos(k), PageView::slot_pos(k) + 2));
        assert(after.data.subrange(page.slot(k) as int, PAGE_SIZE as int) =~= page.data.subrange(
            page.slot(k) as int,
            PAGE_SIZE as int,
        ));
    }
    assert forall|k: int| 0 <= k < after.header.record_count implies #[trigger] after.record_ok(
        k,
    ) by {
        if k < count {
            assert(page.record_ok(k));
            if k > 0 {
                assert(page.record_ok(k - 1));
            }
        } else {
            if count > 0 {
                assert(page.record_ok(count - 1));
            }
        }
    }
    assert forall|k: int| 0 <= k < count implies after.read(k) == page.read(k) by {
        assert(page.record_ok(k));
    }
    assert(after.records() =~= page.records().push(value));
}

/// What goes to the file comes back with the same header and the same bytes
/// behind the header; a page that begins with its header comes back whole.
pub proof fn lemma_deserialize_serialize(page: PageView)
    requires
        page.data.len() == PAGE_SIZE,
    ensures
        page.serialize().len() == PAGE_SIZE,
        PageView::deserialize(page.serialize()).header == page.header,
        PageView::deserialize(page.serialize()).data.subrange(
            HEADER_SIZE as int,
            PAGE_SIZE as int,
        ) == page.data.subrange(HEADER_SIZE as int, PAGE_SIZE as int),
        page.synced() ==> page.serialize() == page.data,
        page.synced() ==> PageView::deserialize(page.serialize()) == page,
{
    lemma_header_bytes_fields(page.header);
    let bytes = page.serialize();
    let body = page.data.subrange(HEADER_SIZE as int, PAGE_SIZE as int);
    assert(bytes =~= header_bytes(page.header) + body);
    lemma_parse_header_bytes(page.header, body);
    assert(bytes.subrange(HEADER_SIZE as int, PAGE_SIZE as int) =~= body);
    if page.synced() {
        assert(bytes =~= page.data);
    }
}

/// What comes from the file goes back as the same bytes.
pub proof fn lemma_serialize_deserialize(bytes: Seq<u8>)
    requires
        bytes.len() == PAGE_SIZE,
    ensures
        PageView::deserialize(bytes).synced(),
        PageView::deserialize(bytes).serialize() == bytes,
{
    lemma_header_bytes_parse(bytes);
    lemma_header_bytes_fields(parse_header(bytes));
    assert(PageView::deserialize(bytes).serialize() =~= bytes);
}

impl Page {
    /// An empty page of the given kind and place.
    pub fn new(page_type: u8, page_id: u64) -> (page: Self)
        ensures
            page@ == PageView::empty(page_type, page_id),
            page@.well_formed(),
    {
        let header = PageHeader::new(page_type, page_id);
        let mut data = [0u8; PAGE_SIZE];
        assert(data@ =~= Seq::new(PAGE_SIZE as nat, |i: int| 0u8));
        header.write_to(&mut data);
        proof {
            lemma_empty_well_formed(page_type, page_id);
        }
        Self { header, data }
    }

    /// Stores `value` as the page's next record. On an error the page is as
    /// it was.
    pub fn insert_value(&mut self, value: &Value) -> (outcome: Result<(), InsertError>)
        requires
            old(self).header.free_space_offset <= PAGE_SIZE,
        ensures
            outcome == old(self)@.insert_outcome(value@),
            outcome is Ok ==> final(self)@ == old(self)@.insert(value@),
            outcome is Err ==> *final(self) == *old(self),
            old(self)@.well_formed() ==> final(self)@.well_formed(),
            old(self)@.well_formed() && outcome is Ok ==> {
                &&& final(self)@.read(old(self).header.record_count as int) == Some(value@)
                &&& forall|k: int|
                    0 <= k < old(self).header.record_count ==> final(self)@.read(k) == old(
                        self,
                    )@.read(k)
                &&& final(self)@.records() == old(self)@.records().push(value@)
            },
    {
        let encoded = match serialize_value(value) {
            Ok(bytes) => bytes,
            Err(inner) => {
                return Err(InsertError::Encode(inner));
            },
        };
        proof {
            lemma_encode_value_len(value@);
        }
        let record_len: usize = encoded.len();
        let count: usize = self.header.record_count as usize;
        if count >= MAX_RECORDS {
            return Err(InsertError::RecordLimit);
        }
        let slot_pos: usize = HEADER_SIZE + count * 2;
        let free: usize = self.header.free_space_offset as usize;
        if slot_pos + 2 > free {
            return Err(InsertError::SlotSpace);
        }
        if record_len > free - (slot_pos + 2) {
            return Err(InsertError::RecordSpace);
        }
        let data_pos: usize = free - record_len;
        store_bytes(&mut self.data, data_pos, encoded.as_slice());
        store_le(&mut self.data, slot_pos, data_pos as u64, 2);
        self.header.record_count = (count + 1) as u16;
        self.header.free_space_offset = data_pos as u16;
        let header = self.header;
        header.write_to(&mut self.data);
        proof {
            if old(self)@.well_formed() {
                lemma_insert_then_read(old(self)@, value@);
            }
        }
        Ok(())
    }

    /// The record under `index`, or `None` where there is none to read: the
    /// index is not below the record count, or the page is damaged there.
    pub fn read_value(&self, index: usize) -> (value: Option<Value>)
        ensures
            value is Some <==> self@.read(index as int) is Some,
            value matches Some(found) ==> self@.read(index as int) == Some(found@),
    {
        if index >= self.header.record_count as usize {
            return None;
        }
        let slot_pos: usize = HEADER_SIZE + index * 2;
        if slot_pos + 2 > PAGE_SIZE {
            return None;
        }
        proof {
            lemma_radix_values();
        }
        let offset: usize = load_le(&self.data, slot_pos, 2) as usize;
        if offset > PAGE_SIZE {
            return None;
        }
        match deserialize_value(slice_subrange(&self.data, offset, PAGE_SIZE)) {
            Some((value, _)) => Some(value),
            None => None,
        }
    }

    /// The page as the 4096 bytes that go to the file: the header as it
    /// stands, then the table, the free bytes and the records as they lie in
    /// the page. In a well-formed page the free bytes are zero.
    pub fn to_raw_buffer(&self) -> (buffer: [u8; PAGE_SIZE])
        ensures
            buffer@ == self@.serialize(),
            PageView::deserialize(buffer@).header == self.header,
            self@.synced() ==> buffer@ == self.data@ && PageView::deserialize(buffer@) == self@,
            self@.well_formed() ==> forall|i: int|
                PageView::slot_pos(self.header.record_count as int) <= i
                    < self.header.free_space_offset ==> buffer@[i] == 0,
    {
        let mut buffer = self.data;
        self.header.write_to(&mut buffer);
        proof {
            lemma_deserialize_serialize(self@);
        }
        buffer
    }

    /// The page that 4096 bytes of the file stand for. Any bytes are taken:
    /// what a damaged page holds shows when its records are read.
    pub fn from_raw_buffer(buffer: [u8; PAGE_SIZE]) -> (page: Self)
        ensures
            page@ == PageView::deserialize(buffer@),
            page@.synced(),
            page@.serialize() == buffer@,
    {
        let header = PageHeader::read_from(&buffer);
        proof {
            lemma_serialize_deserialize(buffer@);
        }
        Self { header, data: buffer }
    }
}

} // verus!
