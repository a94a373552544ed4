use logfrog::capture::{is_truncated, name_key, time_between, Capture};
use logfrog::encoding::{epoch_from_bytes, epoch_to_bytes, pad_name, strip_name};
use logfrog::row::{FieldType, Row};

#[test]
fn epoch_is_sixteen_bytes_least_significant_first() {
    let bytes = epoch_to_bytes(0x0102_0304_0506_0708_090a_0b0c_0d0e_0f10);
    assert_eq!(
        bytes,
        [
            0x10, 0x0f, 0x0e, 0x0d, 0x0c, 0x0b, 0x0a, 0x09, 0x08, 0x07, 0x06, 0x05, 0x04, 0x03,
            0x02, 0x01
        ]
    );
    assert_eq!(epoch_to_bytes(1), [1, 0, 0, 0, 0, 0, 0, 0, 0, 0, 0, 0, 0, 0, 0, 0]);
    assert_eq!(epoch_to_bytes(256), [0, 1, 0, 0, 0, 0, 0, 0, 0, 0, 0, 0, 0, 0, 0, 0]);
    assert_eq!(epoch_to_bytes(u128::MAX), [0xff; 16]);
}

#[test]
fn epoch_round_trips_through_bytes() {
    for x in [0u128, 1, 255, 256, 1_700_000_000_000_000_000, u128::MAX - 1, u128::MAX] {
        let bytes = epoch_to_bytes(x);
        assert_eq!(epoch_from_bytes(&bytes, 0), x);
        assert_eq!(x.to_le_bytes(), bytes);
    }
}

#[test]
fn epoch_is_read_at_an_offset() {
    let mut data = vec![0xaau8; 40];
    data[8..24].copy_from_slice(&epoch_to_bytes(123_456_789));
    assert_eq!(epoch_from_bytes(&data, 8), 123_456_789);
}

#[test]
fn all_zero_slot_reads_as_epoch_zero() {
    let data = [0u8; 16];
    assert_eq!(epoch_from_bytes(&data, 0), 0);
}

#[test]
fn name_of_exactly_64_bytes_is_kept() {
    let name: Vec<u8> = (0..64u8).map(|i| b'a' + (i % 26)).collect();
    let stored = pad_name(&name);
    assert_eq!(&stored[..], &name[..]);
    assert_eq!(strip_name(&stored), name);
}

#[test]
fn name_of_65_bytes_loses_its_last_byte() {
    let name: Vec<u8> = (0..65u8).map(|i| b'a' + (i % 26)).collect();
    let stored = pad_name(&name);
    assert_eq!(&stored[..], &name[..64]);
    assert_eq!(strip_name(&stored), name[..64].to_vec());
}

#[test]
fn short_name_is_padded_and_stripped() {
    let stored = pad_name(b"hello");
    assert_eq!(&stored[..5], b"hello");
    assert!(stored[5..].iter().all(|b| *b == 0));
    assert_eq!(strip_name(&stored), b"hello".to_vec());
}

#[test]
fn names_longer_than_64_bytes_are_cut() {
    assert!(!is_truncated(""));
    assert!(!is_truncated(&"x".repeat(64)));
    assert!(is_truncated(&"x".repeat(65)));
    // 33 characters of two bytes each.
    assert!(is_truncated(&"é".repeat(33)));
    assert!(!is_truncated(&"é".repeat(32)));
}

#[test]
fn empty_name_is_all_zero() {
    let stored = pad_name(b"");
    assert_eq!(stored, [0u8; 64]);
    assert_eq!(strip_name(&stored), Vec::<u8>::new());
}

#[test]
fn zero_bytes_inside_a_name_stay() {
    let stored = pad_name(b"a\0b\0\0");
    assert_eq!(strip_name(&stored), b"a\0b".to_vec());
}

#[test]
fn field_to_string_of_a_name() {
    assert_eq!(name_key("hello").to_string(), "hello");
    assert_eq!(name_key("").to_string(), "");
    assert_eq!(name_key("größe").to_string(), "größe");
}

#[test]
fn field_to_string_of_a_name_cut_inside_a_character() {
    // 63 ASCII bytes, then a two-byte character: its second byte is cut off.
    let mut name = "x".repeat(63);
    name.push('é');
    let text = name_key(&name).to_string();
    assert_eq!(text, format!("{}\u{fffd}", "x".repeat(63)));
}

#[test]
fn field_to_string_of_an_epoch() {
    assert_eq!(FieldType::Epoch(0).to_string(), "0");
    assert_eq!(FieldType::Epoch(7).to_string(), "7");
    assert_eq!(FieldType::Epoch(10).to_string(), "10");
    assert_eq!(FieldType::Epoch(1234567890).to_string(), "1234567890");
    assert_eq!(
        FieldType::Epoch(u128::MAX).to_string(),
        "340282366920938463463374607431768211455"
    );
}

#[test]
fn field_width_and_equality() {
    assert_eq!(FieldType::Epoch(3).width(), 16);
    assert_eq!(name_key("a").width(), 64);
    assert!(FieldType::Epoch(3).same(&FieldType::Epoch(3)));
    assert!(!FieldType::Epoch(3).same(&FieldType::Epoch(4)));
    assert!(name_key("a").same(&name_key("a")));
    assert!(!name_key("a").same(&name_key("b")));
    assert!(!name_key("").same(&FieldType::Epoch(0)));
}

#[test]
fn time_between_start_and_end() {
    assert_eq!(time_between(100, 200), 100);
    assert_eq!(time_between(300, 450), 150);
    assert_eq!(time_between(5, 5), 0);
    // An end before the start wraps around, as unchecked subtraction does.
    assert_eq!(time_between(200, 100), u128::MAX - 99);
    assert_eq!(time_between(200, 100), 100u128.wrapping_sub(200));
}

#[test]
fn capture_becomes_a_row() {
    let c = Capture {
        name: "hello".to_string(),
        args: vec![],
        start: 100,
        end: 250,
    };
    let row = c.to_row(7);
    assert_eq!(
        row,
        Row::new(
            7,
            vec![
                name_key("hello"),
                FieldType::Epoch(100),
                FieldType::Epoch(250),
                FieldType::Epoch(150)
            ]
        )
    );
}
