use pagestore::storage::page::{
    InsertError, Page, PageHeader, HEADER_SIZE, MAX_RECORDS, PAGE_SIZE,
};
use pagestore::storage::serializer::{serialize_value, EncodeError, Value};

fn text_of(len: usize) -> Value {
    Value::Str("s".repeat(len))
}

#[test]
fn sizes_are_fixed() {
    assert_eq!(PAGE_SIZE, 4096);
    assert_eq!(HEADER_SIZE, 17);
    assert_eq!(MAX_RECORDS, 512);
}

#[test]
fn new_header_is_empty() {
    let header = PageHeader::new(3, 9);
    assert_eq!(header.page_type, 3);
    assert_eq!(header.page_id, 9);
    assert_eq!(header.record_count, 0);
    assert_eq!(header.free_space_offset, 4096);
    assert_eq!(header.checksum, 0);
}

#[test]
fn new_page_is_header_then_zeros() {
    let page = Page::new(7, 0x0102_0304_0506_0708);
    assert_eq!(page.header, PageHeader::new(7, 0x0102_0304_0506_0708));
    assert_eq!(
        &page.data[..HEADER_SIZE],
        &[
            7, // page_type
            0x08, 0x07, 0x06, 0x05, 0x04, 0x03, 0x02, 0x01, // page_id
            0x00, 0x00, // record_count
            0x00, 0x10, // free_space_offset
            0x00, 0x00, 0x00, 0x00, // checksum
        ]
    );
    assert!(page.data[HEADER_SIZE..].iter().all(|byte| *byte == 0));
    assert_eq!(page.read_value(0), None);
}

#[test]
fn header_is_written_field_by_field() {
    let header = PageHeader {
        page_type: 0xab,
        page_id: 0x1122_3344_5566_7788,
        record_count: 0x0102,
        free_space_offset: 0x0a0b,
        checksum: 0xdead_beef,
    };
    let mut buf = [0x55u8; PAGE_SIZE];
    header.write_to(&mut buf);
    assert_eq!(
        &buf[..HEADER_SIZE],
        &[
            0xab, 0x88, 0x77, 0x66, 0x55, 0x44, 0x33, 0x22, 0x11, 0x02, 0x01, 0x0b, 0x0a, 0xef,
            0xbe, 0xad, 0xde,
        ]
    );
    assert!(buf[HEADER_SIZE..].iter().all(|byte| *byte == 0x55));
    assert_eq!(PageHeader::read_from(&buf), header);
}

#[test]
fn insert_hello_world_and_read_it_back() {
    let mut page = Page::new(0, 0);
    let value = Value::Str("Hello, World!".to_string());
    assert_eq!(page.insert_value(&value), Ok(()));
    assert_eq!(page.read_value(0), Some(Value::Str("Hello, World!".to_string())));
    assert_eq!(page.header.record_count, 1);
    assert_eq!(page.header.free_space_offset, 4096 - (3 + 13));
    assert_eq!(page.header.free_space_offset, 4080);
    assert_eq!(page.read_value(1), None);
}

#[test]
fn insert_minus_forty_two_stores_tag_and_little_endian_bytes() {
    let mut page = Page::new(0, 0);
    assert_eq!(page.insert_value(&Value::Int(-42)), Ok(()));
    assert_eq!(page.header.free_space_offset, 4091);
    assert_eq!(&page.data[4091..], &[0x01, 0xd6, 0xff, 0xff, 0xff]);
    let mut expected = vec![0x01];
    expected.extend_from_slice(&(-42i32).to_le_bytes());
    assert_eq!(&page.data[4091..], &expected[..]);
    // the first table entry holds the record's offset, 4091 = 0x0ffb
    assert_eq!(&page.data[HEADER_SIZE..HEADER_SIZE + 2], &[0xfb, 0x0f]);
    assert_eq!(page.read_value(0), Some(Value::Int(-42)));
}

#[test]
fn insert_keeps_the_header_bytes_in_step() {
    let mut page = Page::new(1, 5);
    page.insert_value(&Value::Bool(true)).unwrap();
    page.insert_value(&Value::Int(1)).unwrap();
    let mut expected = [0u8; PAGE_SIZE];
    page.header.write_to(&mut expected);
    assert_eq!(&page.data[..HEADER_SIZE], &expected[..HEADER_SIZE]);
    assert_eq!(&page.data[9..11], &[2, 0]);
    assert_eq!(&page.data[11..13], &(4096u16 - 7).to_le_bytes());
}

#[test]
fn records_are_packed_downward_and_slots_upward() {
    let mut page = Page::new(0, 0);
    let values = [
        Value::Int(7),
        Value::Bool(false),
        Value::Str("abc".to_string()),
        Value::Bool(true),
    ];
    let mut end = PAGE_SIZE;
    for (index, value) in values.iter().enumerate() {
        let encoded = serialize_value(value).unwrap();
        assert_eq!(page.insert_value(value), Ok(()));
        let start = end - encoded.len();
        assert_eq!(page.header.record_count as usize, index + 1);
        assert_eq!(page.header.free_space_offset as usize, start);
        assert_eq!(&page.data[start..end], &encoded[..]);
        let slot = HEADER_SIZE + 2 * index;
        assert_eq!(&page.data[slot..slot + 2], &(start as u16).to_le_bytes());
        end = start;
    }
    // between the table and the records nothing but zeros
    assert!(page.data[HEADER_SIZE + 2 * values.len()..end].iter().all(|byte| *byte == 0));
    for (index, value) in values.iter().enumerate() {
        assert_eq!(page.read_value(index), Some(value.clone()));
    }
    assert_eq!(page.read_value(values.len()), None);
}

#[test]
fn earlier_records_read_the_same_after_later_inserts() {
    let mut page = Page::new(0, 0);
    let mut stored: Vec<Value> = Vec::new();
    for number in 0..100 {
        let value = match number % 3 {
            0 => Value::Int(number * 1000 - 7),
            1 => Value::Bool(number % 2 == 0),
            _ => Value::Str(format!("record {}", number)),
        };
        assert_eq!(page.insert_value(&value), Ok(()));
        stored.push(value);
        for (index, expected) in stored.iter().enumerate() {
            assert_eq!(page.read_value(index), Some(expected.clone()));
        }
    }
}

#[test]
fn record_limit_is_512() {
    let mut page = Page::new(0, 0);
    for number in 0..512 {
        assert_eq!(page.insert_value(&Value::Bool(number % 2 == 1)), Ok(()));
    }
    assert_eq!(page.header.record_count, 512);
    let before_header = page.header;
    let before_data = page.data;
    assert_eq!(
        page.insert_value(&Value::Bool(true)),
        Err(InsertError::RecordLimit)
    );
    assert_eq!(page.header.record_count, 512);
    assert_eq!(page.header, before_header);
    assert_eq!(page.data, before_data);
    assert_eq!(page.read_value(511), Some(Value::Bool(true)));
    assert_eq!(page.read_value(512), None);
}

#[test]
fn record_that_does_not_fit_is_refused_and_page_is_unchanged() {
    let mut page = Page::new(0, 0);
    assert_eq!(page.insert_value(&text_of(2000)), Ok(()));
    assert_eq!(page.insert_value(&text_of(2000)), Ok(()));
    // 4096 - 17 - 2 * (2003 + 2) = 69 bytes are free
    let before_header = page.header;
    let before_data = page.data;
    assert_eq!(
        page.insert_value(&text_of(65)),
        Err(InsertError::RecordSpace)
    );
    assert_eq!(page.header, before_header);
    assert_eq!(page.header.record_count, 2);
    assert_eq!(page.header.free_space_offset, 4096 - 2 * 2003);
    assert_eq!(page.data, before_data);
    // 64 + 3 + 2 = 69
    assert_eq!(page.insert_value(&text_of(64)), Ok(()));
    assert_eq!(page.header.record_count, 3);
    assert_eq!(
        page.header.free_space_offset as usize,
        HEADER_SIZE + 2 * 3
    );
    assert_eq!(page.read_value(2), Some(text_of(64)));
}

#[test]
fn largest_record_of_an_empty_page() {
    // 4096 - 17 - 2 = 4077 bytes for the record, 3 of them for tag and length
    let mut page = Page::new(0, 0);
    assert_eq!(
        page.insert_value(&text_of(4075)),
        Err(InsertError::RecordSpace)
    );
    assert_eq!(page.header, PageHeader::new(0, 0));
    assert_eq!(page.insert_value(&text_of(4074)), Ok(()));
    assert_eq!(page.header.free_space_offset as usize, HEADER_SIZE + 2);
    assert_eq!(page.read_value(0), Some(text_of(4074)));
}

#[test]
fn no_room_for_the_slot_is_its_own_error() {
    // nothing free
    let mut page = Page::new(0, 0);
    assert_eq!(page.insert_value(&text_of(4074)), Ok(()));
    assert_eq!(
        page.insert_value(&Value::Bool(true)),
        Err(InsertError::SlotSpace)
    );
    // one byte free
    let mut page = Page::new(0, 0);
    assert_eq!(page.insert_value(&text_of(4073)), Ok(()));
    let before_data = page.data;
    assert_eq!(
        page.insert_value(&Value::Bool(true)),
        Err(InsertError::SlotSpace)
    );
    assert_eq!(page.header.record_count, 1);
    assert_eq!(page.data, before_data);
    // two bytes free: the slot would fit, no record does
    let mut page = Page::new(0, 0);
    assert_eq!(page.insert_value(&text_of(4072)), Ok(()));
    assert_eq!(
        page.insert_value(&Value::Bool(true)),
        Err(InsertError::RecordSpace)
    );
    // four bytes free: a boolean and its slot
    let mut page = Page::new(0, 0);
    assert_eq!(page.insert_value(&text_of(4070)), Ok(()));
    assert_eq!(
        page.insert_value(&Value::Int(1)),
        Err(InsertError::RecordSpace)
    );
    assert_eq!(page.insert_value(&Value::Bool(true)), Ok(()));
    assert_eq!(page.read_value(1), Some(Value::Bool(true)));
    assert_eq!(page.read_value(0), Some(text_of(4070)));
}

#[test]
fn value_without_encoding_is_refused_first() {
    let mut page = Page::new(0, 0);
    for _ in 0..512 {
        page.insert_value(&Value::Bool(false)).unwrap();
    }
    let before_data = page.data;
    assert_eq!(
        page.insert_value(&text_of(65536)),
        Err(InsertError::Encode(EncodeError::StringTooLong))
    );
    assert_eq!(page.header.record_count, 512);
    assert_eq!(page.data, before_data);
    // one that has an encoding meets the record limit
    assert_eq!(
        page.insert_value(&text_of(65535)),
        Err(InsertError::RecordLimit)
    );
    // and in a page with room left, no space
    let mut page = Page::new(0, 0);
    assert_eq!(
        page.insert_value(&text_of(65535)),
        Err(InsertError::RecordSpace)
    );
    assert_eq!(
        page.insert_value(&text_of(65536)),
        Err(InsertError::Encode(EncodeError::StringTooLong))
    );
}

#[test]
fn insert_errors_have_their_messages() {
    assert_eq!(InsertError::RecordLimit.message(), "Limite de registros atingido");
    assert_eq!(
        InsertError::SlotSpace.message(),
        "Espa\u{e7}o insuficiente para novo offset"
    );
    assert_eq!(
        InsertError::RecordSpace.message(),
        "Espa\u{e7}o insuficiente para registro"
    );
    assert_eq!(
        InsertError::Encode(EncodeError::StringTooLong).message(),
        "String too long"
    );
}

#[test]
fn page_survives_the_way_to_bytes_and_back() {
    let mut page = Page::new(4, 12);
    page.insert_value(&Value::Str("Hello, World!".to_string())).unwrap();
    page.insert_value(&Value::Int(-42)).unwrap();
    page.insert_value(&Value::Bool(true)).unwrap();
    let buffer = page.to_raw_buffer();
    assert_eq!(buffer.len(), 4096);
    let back = Page::from_raw_buffer(buffer);
    assert_eq!(back.header, page.header);
    assert_eq!(back.data, page.data);
    assert_eq!(back.to_raw_buffer(), buffer);
    assert_eq!(back.read_value(0), Some(Value::Str("Hello, World!".to_string())));
    assert_eq!(back.read_value(1), Some(Value::Int(-42)));
    assert_eq!(back.read_value(2), Some(Value::Bool(true)));
    assert_eq!(back.read_value(3), None);
}

#[test]
fn raw_buffer_is_header_then_the_page_s_bytes() {
    let mut page = Page::new(2, 3);
    page.insert_value(&Value::Int(1)).unwrap();
    // a header changed by hand is what gets written
    page.header.checksum = 0x0403_0201;
    let buffer = page.to_raw_buffer();
    assert_eq!(
        &buffer[..HEADER_SIZE],
        &[2, 3, 0, 0, 0, 0, 0, 0, 0, 1, 0, 0xfb, 0x0f, 1, 2, 3, 4]
    );
    assert_eq!(&buffer[HEADER_SIZE..], &page.data[HEADER_SIZE..]);
    let back = Page::from_raw_buffer(buffer);
    assert_eq!(back.header, page.header);
    assert_eq!(back.data, buffer);
}

#[test]
fn any_bytes_make_a_page_and_go_back_unchanged() {
    let mut buffer = [0u8; PAGE_SIZE];
    for (index, byte) in buffer.iter_mut().enumerate() {
        *byte = (index * 31 % 251) as u8;
    }
    let page = Page::from_raw_buffer(buffer);
    assert_eq!(page.data, buffer);
    assert_eq!(page.header.page_type, buffer[0]);
    assert_eq!(
        page.header.page_id,
        u64::from_le_bytes([
            buffer[1], buffer[2], buffer[3], buffer[4], buffer[5], buffer[6], buffer[7],
            buffer[8]
        ])
    );
    assert_eq!(page.header.record_count, u16::from_le_bytes([buffer[9], buffer[10]]));
    assert_eq!(
        page.header.free_space_offset,
        u16::from_le_bytes([buffer[11], buffer[12]])
    );
    assert_eq!(
        page.header.checksum,
        u32::from_le_bytes([buffer[13], buffer[14], buffer[15], buffer[16]])
    );
    assert_eq!(page.to_raw_buffer(), buffer);
}

#[test]
fn damaged_slot_reads_as_absent() {
    let mut page = Page::new(0, 0);
    page.insert_value(&Value::Int(5)).unwrap();
    page.insert_value(&Value::Int(6)).unwrap();
    let mut buffer = page.to_raw_buffer();
    // the first slot points behind the page
    buffer[HEADER_SIZE] = 0x01;
    buffer[HEADER_SIZE + 1] = 0x10;
    let damaged = Page::from_raw_buffer(buffer);
    assert_eq!(damaged.read_value(0), None);
    assert_eq!(damaged.read_value(1), Some(Value::Int(6)));
    // at the very end of the page there is nothing to decode
    buffer[HEADER_SIZE] = 0x00;
    buffer[HEADER_SIZE + 1] = 0x10;
    assert_eq!(Page::from_raw_buffer(buffer).read_value(0), None);
    // far behind the page
    buffer[HEADER_SIZE] = 0xff;
    buffer[HEADER_SIZE + 1] = 0xff;
    assert_eq!(Page::from_raw_buffer(buffer).read_value(0), None);
    // the last two bytes of the page: the record is cut short
    buffer[HEADER_SIZE] = 0xfe;
    buffer[HEADER_SIZE + 1] = 0x0f;
    buffer[4094] = 0x01;
    assert_eq!(Page::from_raw_buffer(buffer).read_value(0), None);
}

#[test]
fn damaged_record_reads_as_absent() {
    let mut page = Page::new(0, 0);
    page.insert_value(&Value::Str("ab".to_string())).unwrap();
    page.insert_value(&Value::Bool(true)).unwrap();
    let start = 4096 - 5;
    // an unknown tag
    let mut buffer = page.to_raw_buffer();
    buffer[start] = 0x09;
    let damaged = Page::from_raw_buffer(buffer);
    assert_eq!(damaged.read_value(0), None);
    assert_eq!(damaged.read_value(1), Some(Value::Bool(true)));
    // a length that runs over the end of the page
    let mut buffer = page.to_raw_buffer();
    buffer[start + 1] = 0x03;
    assert_eq!(Page::from_raw_buffer(buffer).read_value(0), None);
    // bytes that are no UTF-8
    let mut buffer = page.to_raw_buffer();
    buffer[start + 3] = 0xff;
    assert_eq!(Page::from_raw_buffer(buffer).read_value(0), None);
}

#[test]
fn damaged_record_count_reads_as_absent() {
    let mut buffer = Page::new(0, 0).to_raw_buffer();
    buffer[9] = 0xff;
    buffer[10] = 0xff;
    let page = Page::from_raw_buffer(buffer);
    assert_eq!(page.header.record_count, 65535);
    // the slot is zero: offset 0 holds the page type, no tag
    assert_eq!(page.read_value(0), None);
    // the last slot that lies within the page
    assert_eq!(page.read_value(2038), None);
    // slots that would lie behind the page
    assert_eq!(page.read_value(2039), None);
    assert_eq!(page.read_value(2040), None);
    assert_eq!(page.read_value(65534), None);
    assert_eq!(page.read_value(65535), None);
    assert_eq!(page.read_value(usize::MAX), None);
}

#[test]
fn slot_may_point_anywhere_in_the_page() {
    // a page by hand: one record, whose slot points into the header
    let mut buffer = [0u8; PAGE_SIZE];
    buffer[0] = 0x02; // page type, read as the tag of a boolean
    buffer[1] = 0x01;
    buffer[9] = 1; // record_count
    buffer[11] = 0x00; // free_space_offset 4096
    buffer[12] = 0x10;
    let page = Page::from_raw_buffer(buffer);
    assert_eq!(page.header.record_count, 1);
    assert_eq!(page.read_value(0), Some(Value::Bool(true)));
}
