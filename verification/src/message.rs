//! The wire envelope exchanged between nodes: a single-identity
//! announcement (`Ping`) or a batch peer list (`List`), with a binary
//! big-endian codec capped at one small datagram.
//!
//! Layout: byte 0 is the kind tag (`0` announce, `1` list). An announce
//! carries one 14-byte identity (host u32, port u16, beat u64, all
//! big-endian). A list carries a u32 count followed by `count` 14-byte
//! identities.

use vstd::prelude::*;

use crate::record::{Addr, Info};
use crate::wire::{
    lemma_u16_round_trip, lemma_u32_round_trip, lemma_u64_round_trip, push_u16, push_u32, push_u64,
    read_u16, read_u32, read_u64, u16_bytes, u16_of, u32_bytes, u32_of, u64_bytes, u64_of,
};

verus! {

/// Every encoded message must fit in a datagram of fewer than this many
/// bytes; encoding fails rather than truncating when a list is too long.
pub const MAX_DATAGRAM: usize = 128;

/// The largest list entry count whose encoding (1 tag byte + 4 count
/// bytes + 14 bytes per entry) stays under [`MAX_DATAGRAM`].
pub const MAX_LIST_LEN: usize = 8;

/// The wire envelope: a single-identity announcement or a batch list.
#[derive(Debug)]
pub enum Message {
    Ping(Info),
    List(Vec<Info>),
}

/// The mathematical model of a [`Message`]: the list variant holds a
/// sequence rather than a vector.
pub ghost enum MessageView {
    Ping(Info),
    List(Seq<Info>),
}

impl View for Message {
    type V = MessageView;

    open spec fn view(&self) -> MessageView {
        match self {
            Message::Ping(i) => MessageView::Ping(*i),
            Message::List(l) => MessageView::List(l@),
        }
    }
}

/// The 14 bytes of one identity on the wire.
pub open spec fn info_bytes(i: Info) -> Seq<u8> {
    u32_bytes(i.addr.host) + u16_bytes(i.addr.port) + u64_bytes(i.beat)
}

/// The concatenated wire records of a list of identities.
pub open spec fn list_bytes(l: Seq<Info>) -> Seq<u8>
    decreases l.len(),
{
    if l.len() == 0 {
        Seq::empty()
    } else {
        list_bytes(l.drop_last()) + info_bytes(l.last())
    }
}

/// The full encoding of a message, tag byte included.
pub open spec fn message_bytes(m: MessageView) -> Seq<u8> {
    match m {
        MessageView::Ping(i) => seq![0u8] + info_bytes(i),
        MessageView::List(l) => seq![1u8] + u32_bytes(l.len() as u32) + list_bytes(l),
    }
}

/// Whether a message fits in one datagram; encoding succeeds exactly on
/// these messages.
pub open spec fn encodable(m: MessageView) -> bool {
    message_bytes(m).len() < MAX_DATAGRAM
}

/// The identity read from 14 bytes starting at `off`.
pub open spec fn parse_info(b: Seq<u8>, off: int) -> Info {
    Info {
        addr: Addr {
            host: u32_of(b.subrange(off, off + 4)),
            port: u16_of(b.subrange(off + 4, off + 6)),
        },
        beat: u64_of(b.subrange(off + 6, off + 14)),
    }
}

/// The `count` identities read from consecutive 14-byte records starting
/// at `off`.
pub open spec fn parse_list(b: Seq<u8>, off: int, count: int) -> Seq<Info> {
    Seq::new(count as nat, |k: int| parse_info(b, off + 14 * k))
}

/// The message held by a buffer, if it is well-formed: a known tag byte
/// followed by a payload the buffer is long enough for. Trailing bytes
/// are ignored, as a datagram buffer is usually longer than the message.
pub open spec fn message_parsed(b: Seq<u8>) -> Option<MessageView> {
    if b.len() < 1 {
        None
    } else if b[0] == 0u8 {
        if b.len() >= 15 {
            Some(MessageView::Ping(parse_info(b, 1)))
        } else {
            None
        }
    } else if b[0] == 1u8 {
        if b.len() >= 5 {
            let count = u32_of(b.subrange(1, 5)) as int;
            if b.len() >= 5 + 14 * count {
                Some(MessageView::List(parse_list(b, 5, count)))
            } else {
                None
            }
        } else {
            None
        }
    } else {
        None
    }
}

/// An identity with the unspecified-host sentinel resolved to `ip`.
pub open spec fn patched_info(i: Info, ip: Addr) -> Info {
    if i.addr.host == 0 {
        Info { addr: Addr { host: ip.host, port: i.addr.port }, beat: i.beat }
    } else {
        i
    }
}

/// A message with every unspecified-host identity resolved to `ip`.
pub open spec fn patched(m: MessageView, ip: Addr) -> MessageView {
    match m {
        MessageView::Ping(i) => MessageView::Ping(patched_info(i, ip)),
        MessageView::List(l) => MessageView::List(
            l.map_values(|i: Info| patched_info(i, ip)),
        ),
    }
}

/// Append the 14 wire bytes of `info` to `buf`.
fn push_info(buf: &mut Vec<u8>, info: Info)
    ensures
        final(buf)@ == old(buf)@ + info_bytes(info),
{
    push_u32(buf, info.addr.host);
    push_u16(buf, info.addr.port);
    push_u64(buf, info.beat);
    assert(buf@ =~= old(buf)@ + info_bytes(info));
}

/// Read the 14-byte identity at offset `off` of `buf`.
fn read_info(buf: &[u8], off: usize) -> (r: Info)
    requires
        off + 14 <= buf@.len(),
    ensures
        r == parse_info(buf@, off as int),
{
    let n = buf.len();
    assert(off + 14 <= n);
    let host = read_u32(buf, off);
    let port = read_u16(buf, off + 4);
    let beat = read_u64(buf, off + 6);
    Info { addr: Addr { host, port }, beat }
}

proof fn lemma_list_bytes_len(l: Seq<Info>)
    ensures
        list_bytes(l).len() == 14 * l.len(),
    decreases l.len(),
{
    if l.len() > 0 {
        lemma_list_bytes_len(l.drop_last());
    }
}

proof fn lemma_list_bytes_index(l: Seq<Info>, k: int)
    requires
        0 <= k < l.len(),
    ensures
        list_bytes(l).subrange(14 * k, 14 * k + 14) == info_bytes(l[k]),
    decreases l.len(),
{
    lemma_list_bytes_len(l);
    lemma_list_bytes_len(l.drop_last());
    if k == l.len() - 1 {
        assert(list_bytes(l).subrange(14 * k, 14 * k + 14) =~= info_bytes(l[k]));
    } else {
        lemma_list_bytes_index(l.drop_last(), k);
        assert(list_bytes(l).subrange(14 * k, 14 * k + 14) =~= list_bytes(l.drop_last()).subrange(
            14 * k,
            14 * k + 14,
        ));
    }
}

/// Reading the 14 bytes that `info_bytes` wrote restores the identity.
proof fn lemma_parse_info_at(b: Seq<u8>, off: int, i: Info)
    requires
        0 <= off,
        off + 14 <= b.len(),
        b.subrange(off, off + 14) == info_bytes(i),
    ensures
        parse_info(b, off) == i,
{
    let w = info_bytes(i);
    assert(w.len() == 14);
    assert(forall|m: int| 0 <= m < 14 ==> #[trigger] b[off + m] == w[m]) by {
        assert(forall|m: int|
            0 <= m < 14 ==> #[trigger] b.subrange(off, off + 14)[m] == b[off + m]);
    }
    assert(b.subrange(off, off + 4) =~= u32_bytes(i.addr.host));
    assert(b.subrange(off + 4, off + 6) =~= u16_bytes(i.addr.port)) by {
        assert(w[4] == u16_bytes(i.addr.port)[0]);
        assert(w[5] == u16_bytes(i.addr.port)[1]);
    }
    assert(b.subrange(off + 6, off + 14) =~= u64_bytes(i.beat)) by {
        assert(forall|m: int| 0 <= m < 8 ==> w[6 + m] == #[trigger] u64_bytes(i.beat)[m]);
    }
    lemma_u32_round_trip(i.addr.host);
    lemma_u16_round_trip(i.addr.port);
    lemma_u64_round_trip(i.beat);
}

/// The capacity ceiling in entries: a list fits in a datagram exactly
/// when it carries at most [`MAX_LIST_LEN`] identities.
pub proof fn lemma_list_capacity(l: Seq<Info>)
    ensures
        encodable(MessageView::List(l)) <==> l.len() <= MAX_LIST_LEN,
{
    lemma_list_bytes_len(l);
    assert(message_bytes(MessageView::List(l)).len() == 5 + 14 * l.len());
}

/// Decoding inverts encoding: every message that fits in a datagram
/// comes back field-for-field from its own bytes.
pub proof fn lemma_codec_round_trip(m: MessageView)
    requires
        encodable(m),
    ensures
        message_parsed(message_bytes(m)) == Some(m),
{
    let b = message_bytes(m);
    match m {
        MessageView::Ping(i) => {
            assert(b.subrange(1, 15) =~= info_bytes(i));
            lemma_parse_info_at(b, 1, i);
        }
        MessageView::List(l) => {
            lemma_list_bytes_len(l);
            let n = l.len() as int;
            assert(b.len() == 5 + 14 * n);
            assert(n <= 8);
            assert(b.subrange(1, 5) =~= u32_bytes(l.len() as u32));
            lemma_u32_round_trip(l.len() as u32);
            assert(u32_of(b.subrange(1, 5)) as int == n);
            assert forall|k: int| 0 <= k < n implies parse_info(b, 5 + 14 * k) == l[k] by {
                lemma_list_bytes_index(l, k);
                assert(b.subrange(5 + 14 * k, 5 + 14 * k + 14) =~= list_bytes(l).subrange(
                    14 * k,
                    14 * k + 14,
                ));
                lemma_parse_info_at(b, 5 + 14 * k, l[k]);
            }
            assert(parse_list(b, 5, n) =~= l);
        }
    }
}

impl Message {
    /// Encode this message, or return `None` when it would not fit in a
    /// [`MAX_DATAGRAM`]-byte datagram; nothing is ever truncated.
    pub fn bytes(&self) -> (r: Option<Vec<u8>>)
        ensures
            encodable(self@) ==> (r matches Some(v) && v@ == message_bytes(self@)),
            !encodable(self@) ==> r is None,
    {
        match self {
            Message::Ping(info) => {
                let mut buf: Vec<u8> = Vec::new();
                buf.push(0u8);
                push_info(&mut buf, *info);
                assert(buf@ =~= message_bytes(self@));
                Some(buf)
            }
            Message::List(list) => {
                proof {
                    lemma_list_bytes_len(list@);
                }
                if list.len() > MAX_LIST_LEN {
                    return None;
                }
                let mut buf: Vec<u8> = Vec::new();
                buf.push(1u8);
                push_u32(&mut buf, list.len() as u32);
                assert(buf@ =~= seq![1u8] + u32_bytes(list@.len() as u32) + list_bytes(
                    list@.take(0),
                ));
                let n = list.len();
                let mut k: usize = 0;
                while k < n
                    invariant
                        k <= n,
                        n == list@.len(),
                        n <= MAX_LIST_LEN,
                        buf@ == seq![1u8] + u32_bytes(list@.len() as u32) + list_bytes(
                            list@.take(k as int),
                        ),
                    decreases n - k,
                {
                    push_info(&mut buf, list[k]);
                    proof {
                        assert(list@.take(k + 1).drop_last() =~= list@.take(k as int));
                        assert(buf@ =~= seq![1u8] + u32_bytes(list@.len() as u32) + list_bytes(
                            list@.take(k + 1),
                        ));
                    }
                    k += 1;
                }
                proof {
                    assert(list@.take(n as int) =~= list@);
                    lemma_list_bytes_len(list@);
                }
                Some(buf)
            }
        }
    }

    /// Decode a datagram. Unknown tags and buffers too short for the
    /// payload they claim yield `None`; trailing bytes are ignored.
    pub fn parse(buf: &[u8]) -> (r: Option<Message>)
        ensures
            message_parsed(buf@) matches Some(m) ==> (r matches Some(msg) && msg@ == m),
            message_parsed(buf@) is None ==> r is None,
    {
        if buf.len() < 1 {
            return None;
        }
        let tag = buf[0];
        if tag == 0 {
            if buf.len() < 15 {
                return None;
            }
            let info = read_info(buf, 1);
            Some(Message::Ping(info))
        } else if tag == 1 {
            if buf.len() < 5 {
                return None;
            }
            let count = read_u32(buf, 1);
            let n = count as usize;
            let mut infos: Vec<Info> = Vec::new();
            let mut k: usize = 0;
            let mut off: usize = 5;
            while k < n
                invariant
                    k <= n,
                    off == 5 + 14 * k,
                    off <= buf@.len(),
                    buf@.len() >= 5,
                    buf@[0] == 1u8,
                    n == u32_of(buf@.subrange(1, 5)),
                    infos@ == parse_list(buf@, 5, k as int),
                decreases n - k,
            {
                if buf.len() - off < 14 {
                    assert(buf@.len() < 5 + 14 * (k + 1) <= 5 + 14 * n);
                    return None;
                }
                let info = read_info(buf, off);
                infos.push(info);
                proof {
                    assert(infos@ =~= parse_list(buf@, 5, k + 1));
                }
                off += 14;
                k += 1;
            }
            assert(buf@.len() >= 5 + 14 * n);
            Some(Message::List(infos))
        } else {
            None
        }
    }

    /// Resolve the unspecified-host sentinel: every carried identity
    /// whose host is `0` takes the transport-observed sender host `ip`
    /// instead, so a node can announce itself without knowing its own
    /// externally visible address.
    pub fn patch(&mut self, ip: Addr)
        ensures
            final(self)@ == patched(old(self)@, ip),
    {
        let ghost orig = self@;
        match self {
            Message::Ping(info) => {
                if info.addr.host == 0 {
                    info.addr.host = ip.host;
                }
            }
            Message::List(list) => {
                let n = list.len();
                let mut k: usize = 0;
                while k < n
                    invariant
                        k <= n,
                        n == list@.len(),
                        orig == MessageView::List(old(self)@->List_0),
                        list@.len() == orig->List_0.len(),
                        forall|j: int|
                            0 <= j < k ==> list@[j] == patched_info(#[trigger] orig->List_0[j], ip),
                        forall|j: int| k <= j < n ==> list@[j] == #[trigger] orig->List_0[j],
                    decreases n - k,
                {
                    if list[k].addr.host == 0 {
                        let entry = &mut list[k];
                        entry.addr.host = ip.host;
                    }
                    k += 1;
                }
                assert(list@ =~= orig->List_0.map_values(|i: Info| patched_info(i, ip)));
            }
        }
    }
}

impl PartialEq for Message {
    /// Structural equality: same variant, same identities in the same
    /// order.
    fn eq(&self, other: &Message) -> (r: bool) {
        match (self, other) {
            (Message::Ping(a), Message::Ping(b)) => a == b,
            (Message::List(a), Message::List(b)) => {
                if a.len() != b.len() {
                    return false;
                }
                let n = a.len();
                let mut k: usize = 0;
                while k < n
                    invariant
                        k <= n,
                        n == a@.len(),
                        n == b@.len(),
                        self@ == MessageView::List(a@),
                        other@ == MessageView::List(b@),
                        forall|j: int| 0 <= j < k ==> a@[j] == b@[j],
                    decreases n - k,
                {
                    if a[k] != b[k] {
                        proof {
                            assert(self@ != other@) by {
                                if self@ == other@ {
                                    assert(self@ == MessageView::List(a@));
                                    assert(other@ == MessageView::List(b@));
                                    assert(a@ == b@);
                                    assert(a@[k as int] == b@[k as int]);
                                }
                            }
                        }
                        return false;
                    }
                    k += 1;
                }
                assert(a@ =~= b@);
                true
            }
            _ => false,
        }
    }
}

impl Eq for Message {

}

impl vstd::std_specs::cmp::PartialEqSpecImpl for Message {
    open spec fn obeys_eq_spec() -> bool {
        true
    }

    open spec fn eq_spec(&self, other: &Message) -> bool {
        self@ == other@
    }
}

} // verus!
