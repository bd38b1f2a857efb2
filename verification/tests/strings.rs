use amqprs::LongStr;
use amqprs::ShortStr;
use bytes::BytesMut;

#[test]
fn short_str_from_str_and_string() {
    let a: ShortStr = "hello".try_into().unwrap();
    let b: ShortStr = String::from("hello").try_into().unwrap();
    assert_eq!(a, b);
    assert_eq!(a.as_ref(), "hello");
    assert_eq!(String::from(a), "hello");
}

#[test]
fn short_str_length_limit() {
    let ok = "x".repeat(255);
    assert!(ShortStr::try_from(ok.as_str()).is_ok());
    let too_long = "x".repeat(256);
    assert!(ShortStr::try_from(too_long.as_str()).is_err());
    assert!(ShortStr::try_from(too_long).is_err());
    // 128 two-byte characters are 256 bytes
    let wide = "é".repeat(128);
    assert!(ShortStr::try_from(wide).is_err());
    let wide = "é".repeat(127);
    assert!(ShortStr::try_from(wide).is_ok());
}

#[test]
fn short_str_default_is_empty() {
    let s = ShortStr::default();
    assert_eq!(s.to_string(), "");
    assert_eq!(s.as_ref(), "");
}

#[test]
fn short_str_display_is_its_text() {
    let s: ShortStr = "queue.name".try_into().unwrap();
    assert_eq!(s.to_string(), "queue.name");
}

#[test]
fn short_str_clone_keeps_text() {
    let s: ShortStr = "amq.direct".try_into().unwrap();
    let c = s.clone();
    assert_eq!(s, c);
    assert_eq!(c.to_string(), "amq.direct");
}

#[test]
fn short_str_wire_form() {
    let s: ShortStr = "héllo".try_into().unwrap();
    let mut buf = BytesMut::new();
    s.write_to(&mut buf);
    assert_eq!(&buf[..], &[6u8, b'h', 0xc3, 0xa9, b'l', b'l', b'o'][..]);
}

#[test]
fn long_str_from_str_and_string() {
    let a: LongStr = "hello".try_into().unwrap();
    let b: LongStr = String::from("hello").try_into().unwrap();
    assert_eq!(a, b);
    assert_eq!(a.as_ref(), "hello");
    assert_eq!(String::from(a), "hello");
    let long = "y".repeat(70000);
    let c: LongStr = long.clone().try_into().unwrap();
    assert_eq!(String::from(c), long);
}

#[test]
fn long_str_default_display_clone() {
    assert_eq!(LongStr::default().to_string(), "");
    let s: LongStr = "guest".try_into().unwrap();
    assert_eq!(s.clone().to_string(), "guest");
}

#[test]
fn long_str_wire_form() {
    let s: LongStr = "guest".try_into().unwrap();
    let mut buf = BytesMut::new();
    buf.extend_from_slice(&[9u8]);
    s.write_to(&mut buf);
    assert_eq!(buf.to_vec(), vec![9u8, 0, 0, 0, 5, b'g', b'u', b'e', b's', b't']);
}

#[test]
fn encoding_into_an_empty_buffer() {
    let mut buf = amqprs::buffer::empty_buffer();
    let s: ShortStr = "ab".try_into().unwrap();
    s.write_to(&mut buf);
    assert_eq!(&buf[..], &[2u8, b'a', b'b'][..]);
}

#[test]
fn long_str_wire_form_of_long_text() {
    let text = "z".repeat(0x0102);
    let s: LongStr = text.as_str().try_into().unwrap();
    let mut buf = BytesMut::new();
    s.write_to(&mut buf);
    assert_eq!(buf.len(), 4 + 0x0102);
    assert_eq!(&buf[..4], &[0u8, 0, 1, 2][..]);
}

#[test]
fn buffer_length_is_its_byte_count() {
    let mut buf = amqprs::buffer::empty_buffer();
    assert_eq!(amqprs::buffer::buffer_len(&buf), 0);
    let s: LongStr = "abc".try_into().unwrap();
    s.write_to(&mut buf);
    assert_eq!(amqprs::buffer::buffer_len(&buf), 7);
}
