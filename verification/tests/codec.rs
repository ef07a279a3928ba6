use gossip::message::Message;
use gossip::record::{Addr, Info};

fn ident(host: u32, port: u16, beat: u64) -> Info {
    Info {
        addr: Addr { host, port },
        beat,
    }
}

#[test]
fn announce_wire_layout() {
    let m = Message::Ping(ident(0x0102_0304, 0x0506, 0x0708_090A_0B0C_0D0E));
    let buf = m.bytes().expect("announce always fits");
    assert_eq!(
        buf,
        vec![0, 1, 2, 3, 4, 5, 6, 7, 8, 9, 0x0A, 0x0B, 0x0C, 0x0D, 0x0E]
    );
}

#[test]
fn announce_round_trip() {
    let m = Message::Ping(ident(0xC0A8_0001, 7001, u64::MAX));
    let buf = m.bytes().expect("announce always fits");
    assert_eq!(Message::parse(&buf), Some(m));
}

#[test]
fn empty_list_round_trip() {
    let m = Message::List(vec![]);
    let buf = m.bytes().expect("empty list fits");
    assert_eq!(buf, vec![1, 0, 0, 0, 0]);
    assert_eq!(Message::parse(&buf), Some(m));
}

#[test]
fn full_list_round_trip() {
    let list: Vec<Info> = (0..8)
        .map(|i| ident(0x0A00_0000 + i, 9000 + i as u16, 1000 + i as u64))
        .collect();
    let m = Message::List(list);
    let buf = m.bytes().expect("eight entries fit");
    assert_eq!(buf.len(), 117);
    assert_eq!(Message::parse(&buf), Some(m));
}

#[test]
fn oversized_list_is_rejected() {
    let list: Vec<Info> = (0..9).map(|i| ident(i, i as u16, i as u64)).collect();
    assert_eq!(Message::List(list).bytes(), None);
}

#[test]
fn unknown_tag_is_rejected() {
    assert_eq!(Message::parse(&[2, 0, 0, 0, 0]), None);
    assert_eq!(Message::parse(&[0xFF]), None);
}

#[test]
fn empty_buffer_is_rejected() {
    assert_eq!(Message::parse(&[]), None);
}

#[test]
fn truncated_announce_is_rejected() {
    let buf = Message::Ping(ident(1, 2, 3)).bytes().unwrap();
    assert_eq!(Message::parse(&buf[..14]), None);
}

#[test]
fn truncated_list_is_rejected() {
    // claims two entries but carries only one
    let buf = Message::List(vec![ident(1, 2, 3), ident(4, 5, 6)])
        .bytes()
        .unwrap();
    assert_eq!(Message::parse(&buf[..buf.len() - 1]), None);
}

#[test]
fn trailing_bytes_are_ignored() {
    let m = Message::Ping(ident(9, 9, 9));
    let mut buf = m.bytes().unwrap();
    buf.resize(1024, 0);
    assert_eq!(Message::parse(&buf), Some(m));
}

#[test]
fn patch_fills_unspecified_host_only() {
    let sender = Addr { host: 0x7F00_0001, port: 4000 };

    let mut announce = Message::Ping(ident(0, 5000, 3));
    announce.patch(sender);
    assert_eq!(announce, Message::Ping(ident(0x7F00_0001, 5000, 3)));

    let mut known = Message::Ping(ident(0x0A0B_0C0D, 5000, 3));
    known.patch(sender);
    assert_eq!(known, Message::Ping(ident(0x0A0B_0C0D, 5000, 3)));

    let mut list = Message::List(vec![ident(0, 1, 1), ident(42, 2, 2)]);
    list.patch(sender);
    assert_eq!(
        list,
        Message::List(vec![ident(0x7F00_0001, 1, 1), ident(42, 2, 2)])
    );
}
