use net_exp_bridge::types::{Address, Frame, Segment};

#[test]
fn address_text_round_trip() {
    let a = Address { data: [0x0a, 0xff, 0x00, 0x7b] };
    assert_eq!(a.to_text(), "0a:ff:00:7b");
    assert_eq!(Address::from_text("0a:ff:00:7b"), Ok(a));
    assert_eq!(Address::from_text("0A:FF:00:7B"), Err(()));
}

#[test]
fn address_text_rejects_bad_input() {
    assert_eq!(Address::from_text("0a:ff:00:7"), Err(()));
    assert_eq!(Address::from_text("0a:ff:00:7bb"), Err(()));
    assert_eq!(Address::from_text("0g:ff:00:7b"), Err(()));
    assert_eq!(Address::from_text(""), Err(()));
    assert_eq!(Address::from_text("0a-ff-00-7b"), Err(()));
    assert_eq!(Address::from_text("+a:ff:00:7b"), Err(()));
    assert_eq!(Address::from_text("0a:ff:00:7\u{e9}"), Err(()));
}

#[test]
fn segment_text_round_trip() {
    let s = Segment { data: [0x12, 0xab] };
    assert_eq!(s.to_text(), "12:ab");
    assert_eq!(Segment::from_text("12:ab"), Ok(s));
    assert_eq!(Segment::from_text("12:a"), Err(()));
    assert_eq!(Segment::from_text("zz:ab"), Err(()));
    assert_eq!(Segment::from_text("12-ab"), Err(()));
    assert_eq!(Segment::from_text("12:AB"), Err(()));
}

#[test]
fn frame_text_round_trip() {
    let mut data = [0u8; 16];
    for (i, d) in data.iter_mut().enumerate() {
        *d = (i as u8) * 17;
    }
    let f = Frame { src: Address { data: [1, 2, 3, 4] }, dst: Address { data: [0xde, 0xad, 0xbe, 0xef] }, data };
    let t = f.to_text();
    assert_eq!(t, "01:02:03:04 de:ad:be:ef 00112233445566778899aabbccddeeff");
    assert_eq!(t.len(), 56);
    assert_eq!(Frame::from_text(&t), Ok(f));
    assert_eq!(Frame::from_text(&t[..55]), Err(()));
    let bad = t.replace("ff", "fg");
    assert_eq!(Frame::from_text(&bad), Err(()));
    assert_eq!(Frame::from_text(&t.to_uppercase()), Err(()));
    assert_eq!(Frame::from_text(&t.replacen(' ', "_", 1)), Err(()));
}

#[test]
fn frame_equality_is_structural() {
    let a = Frame { src: Address { data: [1; 4] }, dst: Address { data: [2; 4] }, data: [3; 16] };
    let mut b = a;
    assert!(a.same(&b));
    assert_eq!(a, b);
    b.data[15] = 4;
    assert!(!a.same(&b));
    assert_ne!(a, b);
}

#[test]
fn address_key_is_big_endian() {
    assert_eq!(Address { data: [1, 2, 3, 4] }.key(), 0x01020304);
    assert_eq!(Address { data: [255, 255, 255, 255] }.key(), u32::MAX);
}
