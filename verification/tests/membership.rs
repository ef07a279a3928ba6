use gossip::agent::{Agent, Event};
use gossip::message::Message;
use gossip::record::{Addr, Info, Record};

const PING_CUTOFF: u64 = 1000;
const FAIL_CUTOFF: u64 = 5000;

fn addr(i: u8) -> Addr {
    Addr {
        host: u32::from_be_bytes([i, i, i, i]),
        port: i as u16,
    }
}

fn info(i: u8, beat: u64) -> Info {
    Info { addr: addr(i), beat }
}

fn agent(i: u8, t: u64, b: u64) -> Agent {
    Agent::new(Record::new(addr(i), t, b), vec![], PING_CUTOFF, FAIL_CUTOFF)
}

#[test]
fn test_gossip() {
    let mut time = 1000000000;

    let mut agent = agent(1, time, 101);

    let join = Message::Ping(info(2, 101));
    assert_eq!(
        agent.accept(&join, time),
        vec![Event::Append(Record::new(addr(2), time, 101))]
    );
    assert_eq!(*agent.peers(), vec![Record::new(addr(2), time, 101)]);

    time += PING_CUTOFF / 2;
    assert!(agent.detect(time).is_empty());
    assert_eq!(
        agent.gossip(time),
        vec![(addr(2), Message::List(vec![info(1, 101)]))]
    );

    time += PING_CUTOFF;
    assert!(agent.gossip(time).is_empty());
}

#[test]
fn scenario_announce_then_timeout() {
    let mut a = Agent::new(Record::new(addr(1), 0, 0), vec![], 500, 1000);

    let events = a.accept(&Message::Ping(info(2, 5)), 1000);
    assert_eq!(events, vec![Event::Append(Record::new(addr(2), 1000, 5))]);

    let removed = a.detect(2500);
    assert_eq!(
        removed,
        vec![Event::Remove(Record {
            info: info(2, 5),
            time: 1000,
            down: 2500,
        })]
    );
}

#[test]
fn scenario_revive_before_timeout() {
    let mut a = Agent::new(Record::new(addr(1), 0, 0), vec![], 500, 1000);

    a.accept(&Message::Ping(info(2, 5)), 1000);
    let events = a.accept(&Message::Ping(info(2, 6)), 2000);
    assert!(events.is_empty());

    assert!(a.detect(2500).is_empty());
    assert!(a.detect(3499).is_empty());
    assert_eq!(
        *a.peers(),
        vec![Record {
            info: info(2, 6),
            time: 2000,
            down: 0,
        }]
    );
}

#[test]
fn scenario_stale_list_merge_is_noop() {
    let mut a = Agent::new(Record::new(addr(1), 0, 0), vec![], 500, 1000);
    a.accept(&Message::Ping(info(2, 5)), 1000);

    let events = a.accept(&Message::List(vec![info(2, 3)]), 1100);
    assert!(events.is_empty());
    assert_eq!(*a.peers(), vec![Record::new(addr(2), 1000, 5)]);
}

#[test]
fn touch_equal_beat_is_noop() {
    let mut a = agent(1, 0, 0);

    let first = a.touch(&info(2, 5), 1000);
    assert_eq!(first, Some(Event::Append(Record::new(addr(2), 1000, 5))));

    let second = a.touch(&info(2, 5), 2000);
    assert!(second.is_none());
    assert_eq!(*a.peers(), vec![Record::new(addr(2), 1000, 5)]);
}

#[test]
fn touch_never_lowers_beat() {
    let mut a = agent(1, 0, 0);
    a.touch(&info(2, 5), 1000);

    assert!(a.touch(&info(2, 4), 2000).is_none());
    assert_eq!(*a.peers(), vec![Record::new(addr(2), 1000, 5)]);

    assert!(a.touch(&info(2, 6), 3000).is_none());
    assert_eq!(*a.peers(), vec![Record::new(addr(2), 3000, 6)]);
}

#[test]
fn touch_zero_beat_resets_and_revives() {
    let mut a = Agent::new(Record::new(addr(1), 0, 0), vec![], 500, 1000);
    a.touch(&info(2, 5), 1000);

    let removed = a.detect(2500);
    assert_eq!(removed.len(), 1);
    assert_eq!(
        *a.peers(),
        vec![Record {
            info: info(2, 5),
            time: 1000,
            down: 2500,
        }]
    );

    assert!(a.touch(&info(2, 0), 3000).is_none());
    assert_eq!(*a.peers(), vec![Record::new(addr(2), 3000, 0)]);
}

#[test]
fn touch_own_address_is_ignored() {
    let mut a = agent(1, 0, 7);
    assert!(a.touch(&info(1, 99), 1000).is_none());
    assert!(a.peers().is_empty());
}

#[test]
fn detect_marks_down_exactly_once() {
    let mut a = Agent::new(Record::new(addr(1), 0, 0), vec![], 500, 1000);
    a.touch(&info(2, 5), 1000);

    assert_eq!(a.detect(2500).len(), 1);
    assert!(a.detect(2600).is_empty());
    assert!(a.detect(9999).is_empty());
}

#[test]
fn detect_respects_window() {
    let mut a = Agent::new(Record::new(addr(1), 0, 0), vec![], 500, 1000);
    a.touch(&info(2, 5), 1000);

    assert!(a.detect(2499).is_empty());
    assert_eq!(a.detect(2500).len(), 1);
}

#[test]
fn gossip_excludes_recipient_and_stale_peers() {
    let mut time: u64 = 10_000;
    let mut a = agent(1, time, 50);
    a.touch(&info(2, 5), time);
    a.touch(&info(3, 6), time - 100);
    // peer 4 last heard from exactly one ping window ago: no longer fresh
    a.touch(&info(4, 7), time - PING_CUTOFF);

    time += 1;
    let out = a.gossip(time);
    assert_eq!(out.len(), 2);

    let (dest_a, list_a) = &out[0];
    assert_eq!(*dest_a, addr(2));
    assert_eq!(*list_a, Message::List(vec![info(3, 6), info(1, 50)]));

    let (dest_b, list_b) = &out[1];
    assert_eq!(*dest_b, addr(3));
    assert_eq!(*list_b, Message::List(vec![info(2, 5), info(1, 50)]));
}

#[test]
fn gossip_excludes_down_peers() {
    let mut a = Agent::new(Record::new(addr(1), 0, 0), vec![], 500, 1000);
    a.touch(&info(2, 5), 1000);
    a.detect(2500);

    a.touch(&info(3, 6), 2500);
    let out = a.gossip(2600);
    assert_eq!(out.len(), 1);
    assert_eq!(out[0].0, addr(3));
    assert_eq!(out[0].1, Message::List(vec![info(1, 0)]));
}

#[test]
fn tick_advances_beat_and_time() {
    let mut a = agent(1, 0, 41);
    a.touch(&info(2, 5), 1000);
    a.tick(1001);

    let out = a.gossip(1002);
    assert_eq!(out, vec![(addr(2), Message::List(vec![info(1, 42)]))]);
}

#[test]
fn ping_returns_unseen_and_down_seeds() {
    let seeds = vec![addr(2), addr(3)];
    let mut a = Agent::new(Record::new(addr(1), 0, 0), seeds, 500, 1000);
    assert_eq!(a.ping(), vec![addr(2), addr(3)]);

    a.touch(&info(2, 5), 1000);
    assert_eq!(a.ping(), vec![addr(3)]);

    // once peer 2 is down its seed is retried
    a.detect(2500);
    assert_eq!(a.ping(), vec![addr(2), addr(3)]);
}

#[test]
fn is_ready_tracks_peer_table() {
    let mut a = agent(1, 0, 0);
    assert!(!a.is_ready());
    a.touch(&info(2, 1), 100);
    assert!(a.is_ready());
}

#[test]
fn record_accessors() {
    let r = Record::new(addr(2), 77, 5);
    assert_eq!(r.info(), info(2, 5));
    assert!(!r.is_down());
    let d = Record {
        info: info(2, 5),
        time: 77,
        down: 99,
    };
    assert!(d.is_down());
}
