use paged_btree::bytes_le::{read_u32_at, write_u32_at};
use paged_btree::layout::{EMAIL_OFFSET, ROW_SIZE, USERNAME_OFFSET};
use paged_btree::row::Row;

#[test]
fn row_round_trips_through_the_codec() {
    let row = Row {
        id: 42,
        username: String::from("alice"),
        email: String::from("alice@example.com"),
    };
    let buf = Row::serialize(&row);
    assert_eq!(buf.len(), ROW_SIZE);
    let back = Row::deserialize(&buf, 0).expect("a serialized row reads back");
    assert_eq!(back.id, 42);
    assert_eq!(back.username, "alice");
    assert_eq!(back.email, "alice@example.com");
}

#[test]
fn fields_at_their_capacity_round_trip_without_a_terminator() {
    let username: String = "u".repeat(32);
    let email: String = "e".repeat(255);
    let row = Row {
        id: 7,
        username: username.clone(),
        email: email.clone(),
    };
    let buf = Row::serialize(&row);
    let back = Row::deserialize(&buf, 0).expect("boundary-length fields read back");
    assert_eq!(back.username, username);
    assert_eq!(back.email, email);
}

#[test]
fn multibyte_text_round_trips() {
    let row = Row {
        id: 3,
        username: String::from("日本語ユーザー"),
        email: String::from("mél@exämple.com"),
    };
    let buf = Row::try_serialize(&row).expect("the fields fit their capacities");
    let back = Row::deserialize(&buf, 0).expect("multi-byte text reads back");
    assert_eq!(back.username, "日本語ユーザー");
    assert_eq!(back.email, "mél@exämple.com");
}

#[test]
fn try_serialize_refuses_over_long_fields() {
    let row = Row {
        id: 1,
        username: "u".repeat(33),
        email: String::from("ok"),
    };
    assert!(Row::try_serialize(&row).is_none());
    let row = Row {
        id: 1,
        username: String::from("ok"),
        email: "e".repeat(256),
    };
    assert!(Row::try_serialize(&row).is_none());
}

#[test]
fn a_row_image_with_invalid_utf8_reads_as_none() {
    let mut buf = vec![0u8; ROW_SIZE];
    buf[USERNAME_OFFSET] = 0xFF;
    buf[USERNAME_OFFSET + 1] = 0xFE;
    assert!(Row::deserialize(&buf, 0).is_none());
    let mut buf2 = vec![0u8; ROW_SIZE];
    buf2[EMAIL_OFFSET] = 0xC0;
    assert!(Row::deserialize(&buf2, 0).is_none());
}

#[test]
fn u32_fields_are_stored_little_endian() {
    let mut buf = vec![0u8; 8];
    write_u32_at(&mut buf, 2, 0x12345678);
    assert_eq!(&buf[..], &[0, 0, 0x78, 0x56, 0x34, 0x12, 0, 0]);
    assert_eq!(read_u32_at(&buf, 2), 0x12345678);
    assert_eq!(read_u32_at(&buf, 3), 0x00123456);
}

#[test]
fn a_serialized_row_stores_the_id_at_offset_zero() {
    let row = Row {
        id: 0xDEADBEEF,
        username: String::from("n"),
        email: String::from("n@x"),
    };
    let buf = Row::serialize(&row);
    assert_eq!(&buf[0..4], &[0xEF, 0xBE, 0xAD, 0xDE]);
}
