//! The membership protocol core: a peer table keyed by address, heartbeat
//! merge rules, time-based failure detection, and gossip payload
//! construction.
//!
//! All operations are pure state transitions driven by an external
//! scheduler; they return explicit event lists instead of performing any
//! I/O themselves.

use vstd::prelude::*;

use crate::message::{Message, MessageView};
use crate::record::{Addr, Info, Record};

verus! {

/// Notification of a peer-table transition: a peer was first observed,
/// or the failure detector declared a peer down.
#[derive(Debug, Copy, Clone, PartialEq, Eq, Structural)]
pub enum Event {
    Append(Record),
    Remove(Record),
}

/// The membership agent: the node's own record, the configured seed
/// addresses, the peer table, and the two detection windows.
pub struct Agent {
    this: Record,
    seeds: Vec<Addr>,
    peers: Vec<Record>,
    ping_cutoff: u64,
    fail_cutoff: u64,
}

/// Whether some entry of `peers` has address `a`.
pub open spec fn has_addr(peers: Seq<Record>, a: Addr) -> bool {
    exists|i: int| 0 <= i < peers.len() && peers[i].info.addr == a
}

/// Whether some entry of `peers` has address `a` and is not down.
pub open spec fn known_live(peers: Seq<Record>, a: Addr) -> bool {
    exists|i: int| 0 <= i < peers.len() && peers[i].down == 0 && peers[i].info.addr == a
}

/// No two entries of `peers` share an address.
pub open spec fn distinct_addrs(peers: Seq<Record>) -> bool {
    forall|i: int, j: int|
        0 <= i < j < peers.len() ==> (#[trigger] peers[i]).info.addr != (#[trigger] peers[j]).info.addr
}

/// The record `r` after an inbound identity `info` for its address was
/// heard at `time`: the update is accepted — beat taken over, contact
/// time refreshed, down mark cleared — only when the inbound beat is
/// strictly fresher, or is the explicit `0` reset that always overrides;
/// a stale or equal nonzero beat changes nothing.
pub open spec fn touched(r: Record, info: Info, time: u64) -> Record {
    if info.beat > r.info.beat || info.beat == 0 {
        Record { info: Info { addr: r.info.addr, beat: info.beat }, time, down: 0 }
    } else {
        r
    }
}

/// The peer table after one identity was merged at `time`: a tracked
/// address is updated in place per [`touched`]; the agent's own address
/// is never inserted; an unknown address is appended as a fresh record.
pub open spec fn touch_state(this: Record, peers: Seq<Record>, info: Info, time: u64) -> Seq<
    Record,
> {
    if has_addr(peers, info.addr) {
        peers.map_values(
            |r: Record| if r.info.addr == info.addr {
                touched(r, info, time)
            } else {
                r
            },
        )
    } else if info.addr == this.info.addr {
        peers
    } else {
        peers.push(Record { info, time, down: 0 })
    }
}

/// The event of merging one identity: only the first observation of an
/// unknown address (other than the agent's own) produces one.
pub open spec fn touch_event(this: Record, peers: Seq<Record>, info: Info, time: u64) -> Option<
    Event,
> {
    if !has_addr(peers, info.addr) && info.addr != this.info.addr {
        Some(Event::Append(Record { info, time, down: 0 }))
    } else {
        None
    }
}

/// Whether the failure detector times `r` out at `time`: not already
/// down, and silent for at least the full `total` window.
pub open spec fn expired(r: Record, time: u64, total: int) -> bool {
    r.down == 0 && r.time + total <= time
}

/// The record `r` marked down at `time`.
pub open spec fn downed(r: Record, time: u64) -> Record {
    Record { info: r.info, time: r.time, down: time }
}

/// The peer table after failure detection at `time`: every expired
/// record is marked down in place; nothing else changes, and nothing is
/// ever revived here.
pub open spec fn detect_state(peers: Seq<Record>, time: u64, total: int) -> Seq<Record> {
    peers.map_values(
        |r: Record| if expired(r, time, total) {
            downed(r, time)
        } else {
            r
        },
    )
}

/// The events of failure detection at `time`: one `Remove` per expired
/// record, in table order.
pub open spec fn detect_events(peers: Seq<Record>, time: u64, total: int) -> Seq<Event>
    decreases peers.len(),
{
    if peers.len() == 0 {
        Seq::empty()
    } else {
        detect_events(peers.drop_last(), time, total) + (if expired(peers.last(), time, total) {
            seq![Event::Remove(downed(peers.last(), time))]
        } else {
            Seq::empty()
        })
    }
}

/// The identities carried by a message: one for an announcement, all of
/// them for a list.
pub open spec fn msg_infos(m: MessageView) -> Seq<Info> {
    match m {
        MessageView::Ping(i) => seq![i],
        MessageView::List(l) => l,
    }
}

/// The peer table after a sequence of identities was merged in order.
pub open spec fn merge_state(this: Record, peers: Seq<Record>, infos: Seq<Info>, time: u64) -> Seq<
    Record,
>
    decreases infos.len(),
{
    if infos.len() == 0 {
        peers
    } else {
        merge_state(this, touch_state(this, peers, infos[0], time), infos.drop_first(), time)
    }
}

/// The events of merging a sequence of identities in order.
pub open spec fn merge_events(this: Record, peers: Seq<Record>, infos: Seq<Info>, time: u64) -> Seq<
    Event,
>
    decreases infos.len(),
{
    if infos.len() == 0 {
        Seq::empty()
    } else {
        (match touch_event(this, peers, infos[0], time) {
            Some(e) => seq![e],
            None => Seq::empty(),
        }) + merge_events(
            this,
            touch_state(this, peers, infos[0], time),
            infos.drop_first(),
            time,
        )
    }
}

/// Whether `r` is fresh enough to take part in gossip at `time`: not
/// down, and heard from strictly within the ping window — a strictly
/// tighter bound than the failure detector's.
pub open spec fn fresh(r: Record, time: u64, ping: u64) -> bool {
    r.down == 0 && r.time + ping > time
}

/// The freshness test as a function value, shared by the specification
/// and the proofs about filtering.
pub open spec fn fresh_pred(time: u64, ping: u64) -> spec_fn(Record) -> bool {
    |r: Record| fresh(r, time, ping)
}

/// The gossip recipients at `time`: the fresh peers, in table order.
pub open spec fn gossip_dests(peers: Seq<Record>, time: u64, ping: u64) -> Seq<Record> {
    peers.filter(fresh_pred(time, ping))
}

/// The identity of a record, as a function value.
pub open spec fn to_info() -> spec_fn(Record) -> Info {
    |r: Record| r.info
}

/// Keeping identities addressed to anyone but `dest`, as a function
/// value.
pub open spec fn not_dest_pred(dest: Addr) -> spec_fn(Info) -> bool {
    |i: Info| i.addr != dest
}

/// The fresh view at `time`: the fresh peers followed by the agent's own
/// record.
pub open spec fn fresh_view(this: Record, peers: Seq<Record>, time: u64, ping: u64) -> Seq<
    Record,
> {
    gossip_dests(peers, time, ping).push(this)
}

/// The list sent to `dest` at `time`: every identity of the fresh view
/// except the recipient's own.
pub open spec fn gossip_payload(
    this: Record,
    peers: Seq<Record>,
    time: u64,
    ping: u64,
    dest: Addr,
) -> Seq<Info> {
    fresh_view(this, peers, time, ping).map_values(to_info()).filter(not_dest_pred(dest))
}

/// A seed is unseen while no live peer-table entry has its address, as a
/// function value.
pub open spec fn unseen_pred(peers: Seq<Record>) -> spec_fn(Addr) -> bool {
    |a: Addr| !known_live(peers, a)
}

/// The seeds that still need an announcement: those with no live entry
/// in the peer table. A down peer's seed is retried.
pub open spec fn unseen_seeds(seeds: Seq<Addr>, peers: Seq<Record>) -> Seq<Addr> {
    seeds.filter(unseen_pred(peers))
}

/// The record a membership event is about.
pub open spec fn event_addr(e: Event) -> Addr {
    match e {
        Event::Append(r) => r.info.addr,
        Event::Remove(r) => r.info.addr,
    }
}

/// Events about address `a`, as a function value.
pub open spec fn addr_pred(a: Addr) -> spec_fn(Event) -> bool {
    |e: Event| event_addr(e) == a
}

/// Whether two agents agree on everything but the peer table.
pub open spec fn same_config(pre: Agent, post: Agent) -> bool {
    &&& post.spec_this() == pre.spec_this()
    &&& post.spec_seeds() == pre.spec_seeds()
    &&& post.spec_ping_cutoff() == pre.spec_ping_cutoff()
    &&& post.spec_fail_cutoff() == pre.spec_fail_cutoff()
}

impl Agent {
    /// The agent's own record.
    pub closed spec fn spec_this(&self) -> Record {
        self.this
    }

    /// The configured seed addresses.
    pub closed spec fn spec_seeds(&self) -> Seq<Addr> {
        self.seeds@
    }

    /// The peer table, in insertion order.
    pub closed spec fn spec_peers(&self) -> Seq<Record> {
        self.peers@
    }

    /// The gossip freshness window.
    pub closed spec fn spec_ping_cutoff(&self) -> u64 {
        self.ping_cutoff
    }

    /// The additional grace period before a silent peer is declared
    /// down.
    pub closed spec fn spec_fail_cutoff(&self) -> u64 {
        self.fail_cutoff
    }

    /// The failure detection window: ping cutoff plus fail cutoff.
    pub open spec fn total_cutoff(&self) -> int {
        self.spec_ping_cutoff() + self.spec_fail_cutoff()
    }

    /// Well-formedness: peer addresses are distinct, the agent's own
    /// record is never in the table, and the two cutoffs can be summed.
    pub open spec fn wf(&self) -> bool {
        &&& distinct_addrs(self.spec_peers())
        &&& forall|i: int|
            0 <= i < self.spec_peers().len() ==> (#[trigger] self.spec_peers()[i]).info.addr
                != self.spec_this().info.addr
        &&& self.spec_ping_cutoff() + self.spec_fail_cutoff() <= u64::MAX
    }

    /// A fresh agent around its own record: empty peer table, the given
    /// seeds and detection windows.
    pub fn new(this: Record, seeds: Vec<Addr>, ping_cutoff: u64, fail_cutoff: u64) -> (r: Agent)
        requires
            ping_cutoff + fail_cutoff <= u64::MAX,
        ensures
            r.wf(),
            r.spec_this() == this,
            r.spec_seeds() == seeds@,
            r.spec_peers() == Seq::<Record>::empty(),
            r.spec_ping_cutoff() == ping_cutoff,
            r.spec_fail_cutoff() == fail_cutoff,
    {
        let r = Agent { this, seeds, peers: Vec::new(), ping_cutoff, fail_cutoff };
        proof {
            assert(r.spec_peers() =~= Seq::<Record>::empty());
        }
        r
    }

    /// Whether the peer table carries any information beyond the agent
    /// itself; the scheduler suppresses gossip rounds while it does not.
    pub fn is_ready(&self) -> (r: bool)
        ensures
            r == (self.spec_peers().len() > 0),
    {
        self.peers.len() > 0
    }

    /// The peer table, for observation.
    pub fn peers(&self) -> (r: &Vec<Record>)
        ensures
            r@ == self.spec_peers(),
    {
        &self.peers
    }

    /// The agent's own record, for observation.
    pub fn this(&self) -> (r: &Record)
        ensures
            *r == self.spec_this(),
    {
        &self.this
    }

    /// Advance the agent's own heartbeat by one and stamp its record
    /// with `time`; run once per protocol round, before gossip, so peers
    /// observe strictly increasing beats.
    pub fn tick(&mut self, time: u64)
        requires
            old(self).wf(),
            old(self).spec_this().info.beat < u64::MAX,
        ensures
            final(self).wf(),
            final(self).spec_this() == (Record {
                info: Info {
                    addr: old(self).spec_this().info.addr,
                    beat: (old(self).spec_this().info.beat + 1) as u64,
                },
                time,
                down: old(self).spec_this().down,
            }),
            final(self).spec_seeds() == old(self).spec_seeds(),
            final(self).spec_peers() == old(self).spec_peers(),
            final(self).spec_ping_cutoff() == old(self).spec_ping_cutoff(),
            final(self).spec_fail_cutoff() == old(self).spec_fail_cutoff(),
    {
        self.this.info.beat = self.this.info.beat + 1;
        self.this.time = time;
    }

    /// Merge one inbound identity at `time` per the heartbeat rules: a
    /// tracked address is refreshed only by a strictly fresher beat or
    /// the explicit `0` reset; an unknown address is inserted and
    /// reported as `Append`; the agent's own address is ignored.
    pub fn touch(&mut self, info: &Info, time: u64) -> (r: Option<Event>)
        requires
            old(self).wf(),
        ensures
            final(self).wf(),
            same_config(*old(self), *final(self)),
            final(self).spec_peers() == touch_state(
                old(self).spec_this(),
                old(self).spec_peers(),
                *info,
                time,
            ),
            r == touch_event(old(self).spec_this(), old(self).spec_peers(), *info, time),
    {
        let ghost peers0 = self.spec_peers();
        let n = self.peers.len();
        let mut i: usize = 0;
        while i < n
            invariant
                i <= n,
                n == self.peers@.len(),
                *self == *old(self),
                old(self).wf(),
                forall|j: int| 0 <= j < i ==> (#[trigger] self.peers@[j]).info.addr != info.addr,
            decreases n - i,
        {
            if self.peers[i].info.addr == info.addr {
                proof {
                    assert(old(self).spec_peers()[i as int].info.addr == info.addr);
                    assert(has_addr(old(self).spec_peers(), info.addr));
                    assert forall|j: int|
                        0 <= j < old(self).spec_peers().len() && j != i implies (#[trigger] old(
                        self,
                    ).spec_peers()[j]).info.addr != info.addr by {
                        if j < i as int {
                            assert(old(self).spec_peers()[j].info.addr != old(
                                self,
                            ).spec_peers()[i as int].info.addr);
                        } else {
                            assert(old(self).spec_peers()[i as int].info.addr != old(
                                self,
                            ).spec_peers()[j].info.addr);
                        }
                    }
                }
                let accept = info.beat > self.peers[i].info.beat || info.beat == 0;
                if accept {
                    let rec = &mut self.peers[i];
                    rec.info.beat = info.beat;
                    rec.time = time;
                    rec.down = 0;
                }
                proof {
                    assert(self.peers@ =~= touch_state(
                        old(self).spec_this(),
                        old(self).spec_peers(),
                        *info,
                        time,
                    ));
                    assert(forall|j: int|
                        0 <= j < self.peers@.len() ==> (#[trigger] self.peers@[j]).info.addr
                            == old(self).spec_peers()[j].info.addr);
                }
                return None;
            }
            i += 1;
        }
        proof {
            assert(!has_addr(peers0, info.addr));
        }
        if info.addr == self.this.info.addr {
            return None;
        }
        let rec = Record { info: *info, time, down: 0 };
        self.peers.push(rec);
        Some(Event::Append(rec))
    }

    /// Time out silent peers at `time`: every record not already down
    /// whose last contact lies at least the full detection window in the
    /// past is marked down in place, producing one `Remove` each, in
    /// table order. Down records are never revived here.
    pub fn detect(&mut self, time: u64) -> (r: Vec<Event>)
        requires
            old(self).wf(),
        ensures
            final(self).wf(),
            same_config(*old(self), *final(self)),
            final(self).spec_peers() == detect_state(
                old(self).spec_peers(),
                time,
                old(self).total_cutoff(),
            ),
            r@ == detect_events(old(self).spec_peers(), time, old(self).total_cutoff()),
    {
        let total = self.ping_cutoff + self.fail_cutoff;
        let mut events: Vec<Event> = Vec::new();
        let n = self.peers.len();
        let mut i: usize = 0;
        while i < n
            invariant
                i <= n,
                n == self.peers@.len(),
                old(self).wf(),
                total == old(self).total_cutoff(),
                same_config(*old(self), *self),
                n == old(self).spec_peers().len(),
                forall|j: int| i <= j < n ==> self.peers@[j] == old(self).spec_peers()[j],
                forall|j: int|
                    0 <= j < i ==> self.peers@[j] == detect_state(
                        old(self).spec_peers(),
                        time,
                        total as int,
                    )[j],
                events@ == detect_events(
                    old(self).spec_peers().take(i as int),
                    time,
                    total as int,
                ),
            decreases n - i,
        {
            let r = self.peers[i];
            if r.down == 0 && time >= total && r.time <= time - total {
                let rec = &mut self.peers[i];
                rec.down = time;
                let updated = self.peers[i];
                events.push(Event::Remove(updated));
            }
            proof {
                let pre = old(self).spec_peers();
                assert(pre.take(i + 1).drop_last() =~= pre.take(i as int));
                assert(pre.take(i + 1).last() == pre[i as int]);
                assert(events@ =~= detect_events(pre.take(i + 1), time, total as int));
            }
            i += 1;
        }
        proof {
            let pre = old(self).spec_peers();
            assert(pre.take(n as int) =~= pre);
            assert(self.peers@ =~= detect_state(pre, time, total as int));
        }
        events
    }

    /// Handle one inbound message at `time`: first run failure detection
    /// — so detection latency is bounded by message arrival, not only by
    /// the periodic timer — then merge every identity the message
    /// carries, in order. Returns the detection events followed by the
    /// merge events.
    pub fn accept(&mut self, message: &Message, time: u64) -> (r: Vec<Event>)
        requires
            old(self).wf(),
        ensures
            final(self).wf(),
            same_config(*old(self), *final(self)),
            final(self).spec_peers() == merge_state(
                old(self).spec_this(),
                detect_state(old(self).spec_peers(), time, old(self).total_cutoff()),
                msg_infos(message@),
                time,
            ),
            r@ == detect_events(old(self).spec_peers(), time, old(self).total_cutoff())
                + merge_events(
                old(self).spec_this(),
                detect_state(old(self).spec_peers(), time, old(self).total_cutoff()),
                msg_infos(message@),
                time,
            ),
    {
        let ghost this0 = old(self).spec_this();
        let mut events = self.detect(time);
        let ghost base_peers = self.spec_peers();
        let ghost base_events = events@;
        match message {
            Message::Ping(info) => {
                let e = self.touch(info, time);
                if let Some(ev) = e {
                    events.push(ev);
                }
                proof {
                    assert(message@ == MessageView::Ping(*info));
                    let infos = msg_infos(message@);
                    assert(infos == seq![*info]);
                    assert(infos[0] == *info);
                    assert(infos.drop_first() =~= Seq::<Info>::empty());
                    let st1 = touch_state(this0, base_peers, *info, time);
                    assert(merge_state(this0, base_peers, infos, time) == merge_state(
                        this0,
                        st1,
                        infos.drop_first(),
                        time,
                    ));
                    assert(merge_state(this0, st1, infos.drop_first(), time) == st1);
                    assert(merge_events(this0, st1, infos.drop_first(), time) =~= Seq::<
                        Event,
                    >::empty());
                    let ev0 = touch_event(this0, base_peers, *info, time);
                    assert(merge_events(this0, base_peers, infos, time) == (match ev0 {
                        Some(ev1) => seq![ev1],
                        None => Seq::empty(),
                    }) + merge_events(this0, st1, infos.drop_first(), time));
                    assert(events@ =~= base_events + merge_events(
                        this0,
                        base_peers,
                        infos,
                        time,
                    ));
                }
            }
            Message::List(list) => {
                proof {
                    assert(list@.skip(0) =~= list@);
                    assert(self.spec_peers() == base_peers);
                }
                let n = list.len();
                let mut k: usize = 0;
                while k < n
                    invariant
                        k <= n,
                        n == list@.len(),
                        self.wf(),
                        message@ == MessageView::List(list@),
                        same_config(*old(self), *self),
                        self.spec_this() == this0,
                        merge_state(this0, base_peers, list@, time) == merge_state(
                            this0,
                            self.spec_peers(),
                            list@.skip(k as int),
                            time,
                        ),
                        base_events + merge_events(this0, base_peers, list@, time) == events@
                            + merge_events(this0, self.spec_peers(), list@.skip(k as int), time),
                    decreases n - k,
                {
                    let ghost cur = self.spec_peers();
                    let e = self.touch(&list[k], time);
                    if let Some(ev) = e {
                        events.push(ev);
                    }
                    proof {
                        let rest = list@.skip(k as int);
                        assert(rest.len() > 0);
                        assert(rest[0] == list@[k as int]);
                        assert(rest.drop_first() =~= list@.skip(k + 1));
                        assert(merge_state(this0, cur, rest, time) == merge_state(
                            this0,
                            self.spec_peers(),
                            list@.skip(k + 1),
                            time,
                        ));
                        assert(events@ + merge_events(this0, self.spec_peers(), list@.skip(k + 1), time)
                            =~= base_events + merge_events(this0, base_peers, list@, time));
                    }
                    k += 1;
                }
                proof {
                    assert(list@.skip(n as int) =~= Seq::<Info>::empty());
                    assert(events@ =~= base_events + merge_events(this0, base_peers, list@, time));
                }
            }
        }
        events
    }

    /// The seed addresses that still need an announcement: every seed
    /// with no live entry in the peer table, in seed order. A seed whose
    /// peer is down counts as unseen and is retried.
    pub fn ping(&self) -> (r: Vec<Addr>)
        ensures
            r@ == unseen_seeds(self.spec_seeds(), self.spec_peers()),
    {
        let mut out: Vec<Addr> = Vec::new();
        let n = self.seeds.len();
        let mut i: usize = 0;
        while i < n
            invariant
                i <= n,
                n == self.seeds@.len(),
                out@ == unseen_seeds(self.spec_seeds().take(i as int), self.spec_peers()),
            decreases n - i,
        {
            let seed = self.seeds[i];
            let m = self.peers.len();
            let mut found = false;
            let mut j: usize = 0;
            while j < m
                invariant
                    j <= m,
                    m == self.peers@.len(),
                    seed == self.seeds@[i as int],
                    found == exists|t: int|
                        0 <= t < j && (#[trigger] self.peers@[t]).down == 0
                            && self.peers@[t].info.addr == seed,
                decreases m - j,
            {
                let p = self.peers[j];
                if p.down == 0 && p.info.addr == seed {
                    found = true;
                }
                j += 1;
            }
            proof {
                assert(found == known_live(self.spec_peers(), seed));
            }
            if !found {
                out.push(seed);
            }
            proof {
                let seeds = self.spec_seeds();
                assert(seeds.take(i + 1) =~= seeds.take(i as int).push(seed));
                seeds.take(i as int).lemma_filter_push(seed, unseen_pred(self.spec_peers()));
                assert(unseen_pred(self.spec_peers())(seed) == !known_live(
                    self.spec_peers(),
                    seed,
                ));
                assert(out@ == unseen_seeds(seeds.take(i + 1), self.spec_peers()));
            }
            i += 1;
        }
        proof {
            assert(self.spec_seeds().take(n as int) =~= self.spec_seeds());
        }
        out
    }

    /// Build the gossip round at `time`: one `List` message per fresh
    /// peer, in table order, each carrying every identity of the fresh
    /// view — the fresh peers plus the agent itself — except the
    /// recipient's own. Peers outside the ping window are neither
    /// addressed nor carried, even when not yet down.
    pub fn gossip(&mut self, time: u64) -> (r: Vec<(Addr, Message)>)
        requires
            old(self).wf(),
        ensures
            *final(self) == *old(self),
            r@.len() == gossip_dests(
                old(self).spec_peers(),
                time,
                old(self).spec_ping_cutoff(),
            ).len(),
            forall|k: int|
                0 <= k < r@.len() ==> {
                    let dests = gossip_dests(
                        old(self).spec_peers(),
                        time,
                        old(self).spec_ping_cutoff(),
                    );
                    &&& (#[trigger] r@[k]).0 == dests[k].info.addr
                    &&& r@[k].1@ == MessageView::List(
                        gossip_payload(
                            old(self).spec_this(),
                            old(self).spec_peers(),
                            time,
                            old(self).spec_ping_cutoff(),
                            dests[k].info.addr,
                        ),
                    )
                },
    {
        let ping = self.ping_cutoff;
        let n = self.peers.len();
        let mut view: Vec<Record> = Vec::new();
        let mut i: usize = 0;
        while i < n
            invariant
                i <= n,
                *self == *old(self),
                n == self.peers@.len(),
                ping == self.spec_ping_cutoff(),
                view@ == gossip_dests(self.spec_peers().take(i as int), time, ping),
            decreases n - i,
        {
            let p = self.peers[i];
            if p.down == 0 && (time < ping || p.time > time - ping) {
                view.push(p);
            }
            proof {
                let peers = self.spec_peers();
                assert(peers.take(i + 1) =~= peers.take(i as int).push(p));
                peers.take(i as int).lemma_filter_push(p, fresh_pred(time, ping));
                assert(fresh_pred(time, ping)(p) == fresh(p, time, ping));
                assert(view@ == gossip_dests(peers.take(i + 1), time, ping));
            }
            i += 1;
        }
        proof {
            assert(self.spec_peers().take(n as int) =~= self.spec_peers());
        }
        view.push(self.this);
        proof {
            assert(view@ == fresh_view(self.spec_this(), self.spec_peers(), time, ping));
        }
        let v = view.len();
        let mut out: Vec<(Addr, Message)> = Vec::new();
        let mut i: usize = 0;
        while i < n
            invariant
                i <= n,
                *self == *old(self),
                n == self.peers@.len(),
                ping == self.spec_ping_cutoff(),
                v == view@.len(),
                view@ == fresh_view(self.spec_this(), self.spec_peers(), time, ping),
                out@.len() == gossip_dests(self.spec_peers().take(i as int), time, ping).len(),
                forall|k: int|
                    0 <= k < out@.len() ==> {
                        let dests = gossip_dests(self.spec_peers().take(i as int), time, ping);
                        &&& (#[trigger] out@[k]).0 == dests[k].info.addr
                        &&& out@[k].1@ == MessageView::List(
                            gossip_payload(
                                self.spec_this(),
                                self.spec_peers(),
                                time,
                                ping,
                                dests[k].info.addr,
                            ),
                        )
                    },
            decreases n - i,
        {
            let p = self.peers[i];
            if p.down == 0 && (time < ping || p.time > time - ping) {
                let dest = p.info.addr;
                let mut selected: Vec<Info> = Vec::new();
                let mut j: usize = 0;
                while j < v
                    invariant
                        j <= v,
                        v == view@.len(),
                        selected@ == view@.take(j as int).map_values(to_info()).filter(
                            not_dest_pred(dest),
                        ),
                    decreases v - j,
                {
                    let q = view[j];
                    if q.info.addr != dest {
                        selected.push(q.info);
                    }
                    proof {
                        let part = view@.take(j as int).map_values(to_info());
                        assert(view@.take(j + 1).map_values(to_info()) =~= part.push(q.info));
                        part.lemma_filter_push(q.info, not_dest_pred(dest));
                        assert(not_dest_pred(dest)(q.info) == (q.info.addr != dest));
                        assert(selected@ == view@.take(j + 1).map_values(to_info()).filter(
                            not_dest_pred(dest),
                        ));
                    }
                    j += 1;
                }
                proof {
                    assert(view@.take(v as int) =~= view@);
                    assert(selected@ == gossip_payload(
                        self.spec_this(),
                        self.spec_peers(),
                        time,
                        ping,
                        dest,
                    ));
                }
                out.push((dest, Message::List(selected)));
            }
            proof {
                let peers = self.spec_peers();
                assert(peers.take(i + 1) =~= peers.take(i as int).push(p));
                peers.take(i as int).lemma_filter_push(p, fresh_pred(time, ping));
                assert(fresh_pred(time, ping)(p) == fresh(p, time, ping));
            }
            i += 1;
        }
        proof {
            assert(self.spec_peers().take(n as int) =~= self.spec_peers());
        }
        out
    }
}

/// An element kept by a filter comes from the underlying sequence.
proof fn lemma_filter_elem<A>(s: Seq<A>, pred: spec_fn(A) -> bool, j: int)
    requires
        0 <= j < s.filter(pred).len(),
    ensures
        s.contains(s.filter(pred)[j]),
    decreases s.len(),
{
    reveal(Seq::filter);
    if s.len() > 0 {
        let sub = s.drop_last().filter(pred);
        if pred(s.last()) && j == sub.len() {
            assert(s.filter(pred)[j] == s.last());
            assert(s[s.len() - 1] == s.last());
        } else {
            lemma_filter_elem(s.drop_last(), pred, j);
            let t = choose|t: int|
                0 <= t < s.drop_last().len() && s.drop_last()[t] == s.filter(pred)[j];
            assert(s[t] == s.filter(pred)[j]);
        }
    }
}

/// A one-element sequence filters to itself or to nothing, by whether
/// its element passes.
proof fn lemma_filter_singleton<A>(x: A, pred: spec_fn(A) -> bool)
    ensures
        seq![x].filter(pred) == (if pred(x) {
            seq![x]
        } else {
            Seq::<A>::empty()
        }),
{
    reveal(Seq::filter);
    assert(seq![x].drop_last() =~= Seq::<A>::empty());
    assert(Seq::<A>::empty().filter(pred) =~= Seq::<A>::empty());
    assert(seq![x].last() == x);
    if pred(x) {
        assert(seq![x].filter(pred) =~= seq![x]);
    } else {
        assert(seq![x].filter(pred) =~= Seq::<A>::empty());
    }
}

/// Monotonicity of one merge step: a single `touch` with a nonzero
/// inbound beat never lowers the beat recorded for any tracked peer, and
/// never changes which address a table slot holds.
pub proof fn lemma_touch_beat_monotonic(
    this: Record,
    peers: Seq<Record>,
    info: Info,
    time: u64,
    i: int,
)
    requires
        0 <= i < peers.len(),
        info.beat != 0,
    ensures
        touch_state(this, peers, info, time).len() >= peers.len(),
        touch_state(this, peers, info, time)[i].info.addr == peers[i].info.addr,
        touch_state(this, peers, info, time)[i].info.beat >= peers[i].info.beat,
{
}

/// Monotonicity: across any sequence of merged identities none of which
/// carries the explicit `0` reset beat, the beat recorded for a peer
/// already in the table never decreases, and its table slot keeps its
/// address.
pub proof fn lemma_merge_beat_monotonic(
    this: Record,
    peers: Seq<Record>,
    infos: Seq<Info>,
    time: u64,
    i: int,
)
    requires
        0 <= i < peers.len(),
        forall|k: int| 0 <= k < infos.len() ==> (#[trigger] infos[k]).beat != 0,
    ensures
        merge_state(this, peers, infos, time).len() >= peers.len(),
        merge_state(this, peers, infos, time)[i].info.addr == peers[i].info.addr,
        merge_state(this, peers, infos, time)[i].info.beat >= peers[i].info.beat,
    decreases infos.len(),
{
    if infos.len() > 0 {
        lemma_touch_beat_monotonic(this, peers, infos[0], time, i);
        let step = touch_state(this, peers, infos[0], time);
        assert(forall|k: int|
            0 <= k < infos.drop_first().len() ==> (#[trigger] infos.drop_first()[k]).beat != 0);
        lemma_merge_beat_monotonic(this, step, infos.drop_first(), time, i);
    }
}

/// Idempotence: merging an identical identity a second time — at the
/// same or any later moment, unless it is the always-accepted `0` reset
/// arriving at a new time — changes nothing and produces no event.
pub proof fn lemma_touch_idempotent(
    this: Record,
    peers: Seq<Record>,
    info: Info,
    t1: u64,
    t2: u64,
)
    requires
        info.beat != 0 || t1 == t2,
    ensures
        touch_state(this, touch_state(this, peers, info, t1), info, t2) == touch_state(
            this,
            peers,
            info,
            t1,
        ),
        touch_event(this, touch_state(this, peers, info, t1), info, t2) is None,
{
    let a = info.addr;
    let once = touch_state(this, peers, info, t1);
    if has_addr(peers, a) {
        let w = choose|w: int| 0 <= w < peers.len() && peers[w].info.addr == a;
        assert(once[w].info.addr == a);
        assert(has_addr(once, a));
        assert(touch_state(this, once, info, t2) =~= once);
    } else if a == this.info.addr {
        assert(touch_state(this, once, info, t2) == once);
    } else {
        assert(once[peers.len() as int].info.addr == a);
        assert(has_addr(once, a));
        assert(touch_state(this, once, info, t2) =~= once);
    }
}

/// Detection produces no event about an address that no table entry
/// holds.
proof fn lemma_detect_events_absent(peers: Seq<Record>, time: u64, total: int, a: Addr)
    requires
        forall|j: int| 0 <= j < peers.len() ==> (#[trigger] peers[j]).info.addr != a,
    ensures
        detect_events(peers, time, total).filter(addr_pred(a)) == Seq::<Event>::empty(),
    decreases peers.len(),
{
    reveal(Seq::filter);
    if peers.len() == 0 {
        assert(detect_events(peers, time, total).filter(addr_pred(a)) =~= Seq::<Event>::empty());
    } else {
        let pre = peers.drop_last();
        lemma_detect_events_absent(pre, time, total, a);
        let tail = if expired(peers.last(), time, total) {
            seq![Event::Remove(downed(peers.last(), time))]
        } else {
            Seq::<Event>::empty()
        };
        Seq::filter_distributes_over_add(detect_events(pre, time, total), tail, addr_pred(a));
        assert(peers[peers.len() - 1].info.addr != a);
        if expired(peers.last(), time, total) {
            lemma_filter_singleton(Event::Remove(downed(peers.last(), time)), addr_pred(a));
        }
        assert(tail.filter(addr_pred(a)) =~= Seq::<Event>::empty());
        assert(detect_events(peers, time, total).filter(addr_pred(a)) =~= Seq::<
            Event,
        >::empty());
    }
}

/// Among the events of one detection pass, those about the address of
/// table entry `i` are exactly one `Remove` if that entry expires, and
/// none otherwise.
proof fn lemma_detect_events_at(peers: Seq<Record>, time: u64, total: int, i: int)
    requires
        distinct_addrs(peers),
        0 <= i < peers.len(),
    ensures
        detect_events(peers, time, total).filter(addr_pred(peers[i].info.addr)) == (if expired(
            peers[i],
            time,
            total,
        ) {
            seq![Event::Remove(downed(peers[i], time))]
        } else {
            Seq::<Event>::empty()
        }),
    decreases peers.len(),
{
    reveal(Seq::filter);
    let a = peers[i].info.addr;
    let pre = peers.drop_last();
    let tail = if expired(peers.last(), time, total) {
        seq![Event::Remove(downed(peers.last(), time))]
    } else {
        Seq::<Event>::empty()
    };
    Seq::filter_distributes_over_add(detect_events(pre, time, total), tail, addr_pred(a));
    if i == peers.len() - 1 {
        assert(forall|j: int| 0 <= j < pre.len() ==> (#[trigger] pre[j]).info.addr != a);
        lemma_detect_events_absent(pre, time, total, a);
        if expired(peers[i], time, total) {
            lemma_filter_singleton(Event::Remove(downed(peers[i], time)), addr_pred(a));
            assert(tail.filter(addr_pred(a)) =~= seq![Event::Remove(downed(peers[i], time))]);
        } else {
            assert(tail.filter(addr_pred(a)) =~= Seq::<Event>::empty());
        }
        assert(detect_events(peers, time, total).filter(addr_pred(a)) =~= tail.filter(
            addr_pred(a),
        ));
    } else {
        assert(distinct_addrs(pre));
        lemma_detect_events_at(pre, time, total, i);
        assert(peers.last().info.addr != a);
        if expired(peers.last(), time, total) {
            lemma_filter_singleton(Event::Remove(downed(peers.last(), time)), addr_pred(a));
        }
        assert(tail.filter(addr_pred(a)) =~= Seq::<Event>::empty());
        assert(detect_events(peers, time, total).filter(addr_pred(a)) =~= detect_events(
            pre,
            time,
            total,
        ).filter(addr_pred(a)));
    }
}

/// Detection liveness: an expired entry — silent for the full window and
/// not already down — is marked down in place, and exactly one `Remove`
/// event about its address is produced.
pub proof fn lemma_detect_liveness(peers: Seq<Record>, time: u64, total: int, i: int)
    requires
        distinct_addrs(peers),
        0 <= i < peers.len(),
        expired(peers[i], time, total),
    ensures
        detect_state(peers, time, total)[i] == downed(peers[i], time),
        detect_events(peers, time, total).filter(addr_pred(peers[i].info.addr)) == seq![
            Event::Remove(downed(peers[i], time)),
        ],
{
    lemma_detect_events_at(peers, time, total, i);
}

/// Detection marks nothing twice and revives nothing: an entry that does
/// not expire — already down, or recently heard from — is left exactly
/// as it was, and no event about its address is produced.
pub proof fn lemma_detect_stable(peers: Seq<Record>, time: u64, total: int, i: int)
    requires
        distinct_addrs(peers),
        0 <= i < peers.len(),
        !expired(peers[i], time, total),
    ensures
        detect_state(peers, time, total)[i] == peers[i],
        detect_events(peers, time, total).filter(addr_pred(peers[i].info.addr)) == Seq::<
            Event,
        >::empty(),
{
    lemma_detect_events_at(peers, time, total, i);
}

/// Gossip exclusion: a list built for recipient `dest` never carries the
/// recipient's own identity, and every identity it carries is either the
/// sender's own or that of a peer fresh within the ping window — never a
/// peer outside it, even one not yet down.
pub proof fn lemma_gossip_exclusion(
    this: Record,
    peers: Seq<Record>,
    time: u64,
    ping: u64,
    dest: Addr,
    j: int,
)
    requires
        0 <= j < gossip_payload(this, peers, time, ping, dest).len(),
    ensures
        gossip_payload(this, peers, time, ping, dest)[j].addr != dest,
        gossip_payload(this, peers, time, ping, dest)[j] == this.info || exists|t: int|
            0 <= t < peers.len() && (#[trigger] peers[t]).info == gossip_payload(
                this,
                peers,
                time,
                ping,
                dest,
            )[j] && fresh(peers[t], time, ping),
{
    let view = fresh_view(this, peers, time, ping);
    let mapped = view.map_values(to_info());
    let payload = gossip_payload(this, peers, time, ping, dest);
    let e = payload[j];
    mapped.lemma_filter_pred(not_dest_pred(dest), j);
    assert(e.addr != dest);
    lemma_filter_elem(mapped, not_dest_pred(dest), j);
    let t = choose|t: int| 0 <= t < mapped.len() && mapped[t] == e;
    assert(view[t].info == e);
    if t < view.len() - 1 {
        let dests = gossip_dests(peers, time, ping);
        peers.lemma_filter_pred(fresh_pred(time, ping), t);
        assert(fresh(dests[t], time, ping));
        lemma_filter_elem(peers, fresh_pred(time, ping), t);
        let u = choose|u: int| 0 <= u < peers.len() && peers[u] == dests[t];
        assert(peers[u].info == e && fresh(peers[u], time, ping));
    } else {
        assert(view[t] == this);
    }
}

} // verus!
