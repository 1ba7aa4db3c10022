//! The router: per-client message queues, the bus subscriptions they need,
//! and the delivery of bus frames to the queues whose channel they came on.

use crate::cache::{no_ids, no_names, tag_id_cap, tag_name_cap, Cache, TAG_CACHE_CAPACITY};
use crate::frame::{
    frame_shape, lemma_frame_ext, lemma_utf8_cut_unique, try_parse, utf8_cut, valid_prefix_len, FrameShape,
    RedisParseOutput,
};
use crate::text::push_char;
use crate::text::{chars_of, has_no_colon, split};
use crate::timeline::{decode, is_legal, lemma_wire_round_trip, tag_of, wire_in, Stream, Timeline, TimelineErr};
use vstd::prelude::*;
use vstd::slice::{slice_subrange, slice_to_vec};
use vstd::string::*;
use vstd::utf8::{decode_utf8, valid_utf8};

verus! {

#[derive(Clone, Copy, Debug, PartialEq, Eq, Structural)]
pub enum RedisCmd {
    Subscribe,
    Unsubscribe,
}

/// A command for the bus's command connection.
pub struct BusCommand {
    pub cmd: RedisCmd,
    pub channel: String,
}

/// What one read of the bus came to, besides the deliveries.
pub struct DrainReport {
    /// Stretches of bytes that formed no frame, passed over.
    pub malformed: usize,
    /// Deliveries on a hashtag channel whose name the cache does not hold.
    pub missing_hashtags: usize,
    /// Deliveries whose payload is no event, dropped.
    pub bad_payloads: usize,
}

/// What polling a client's queue gives.
pub enum Polled {
    /// The oldest event of the queue.
    Ready(String),
    NotReady,
}

/// One client's queue of events.
pub struct MsgQueue {
    pub id: u128,
    pub timeline: Timeline,
    /// The hashtag's name for a hashtag timeline, else empty.
    pub tag: String,
    /// The bus channel of the timeline, namespace included.
    pub channel: String,
    /// Events not yet polled, oldest first.
    pub messages: Vec<String>,
    pub last_polled_ms: u64,
}

/// Receives frames from the bus and keeps them until each client polls.
/// A delivery goes to every queue whose channel it came on; the hashtag
/// cache is filled as hashtag clients register, for decoding channels back
/// into timelines.
pub struct Receiver {
    pub namespace: Option<String>,
    pub poll_interval_ms: u64,
    pub polled_at_ms: u64,
    pub queues: Vec<MsgQueue>,
    pub cache: Cache,
    /// Bytes from the bus that do not yet form a whole frame.
    pub redis_input: Vec<u8>,
}

pub open spec fn ns_view(ns: Option<String>) -> Option<Seq<char>> {
    match ns {
        Some(n) => Some(n@),
        None => None,
    }
}

/// A namespace, if any, holds no `:`.
pub open spec fn no_colon_ns(ns: Option<Seq<char>>) -> bool {
    ns is Some ==> has_no_colon(ns->0)
}

/// A queue follows a timeline that has a channel, under the name it was
/// registered with, and that name holds no `:`.
pub open spec fn queue_ok(q: MsgQueue, ns: Option<Seq<char>>) -> bool {
    &&& is_legal(q.timeline)
    &&& has_no_colon(q.tag@)
    &&& q.channel@ == wire_in(q.timeline, q.tag@, ns)
}

pub open spec fn texts(v: Seq<String>) -> Seq<Seq<char>> {
    Seq::new(v.len(), |i: int| v[i]@)
}

/// How many queues follow the timeline `t`.
pub open spec fn count_tl(qs: Seq<MsgQueue>, t: Timeline) -> nat
    decreases qs.len(),
{
    if qs.len() == 0 {
        0
    } else {
        count_tl(qs.drop_last(), t) + if qs.last().timeline == t {
            1nat
        } else {
            0nat
        }
    }
}

pub open spec fn has_id(qs: Seq<MsgQueue>, id: u128) -> bool {
    exists|i: int| 0 <= i < qs.len() && qs[i].id == id
}

pub open spec fn index_of(qs: Seq<MsgQueue>, id: u128) -> int {
    choose|i: int| 0 <= i < qs.len() && qs[i].id == id
}

/// The queues without the one of client `id`.
pub open spec fn without(qs: Seq<MsgQueue>, id: u128) -> Seq<MsgQueue> {
    if has_id(qs, id) {
        qs.remove(index_of(qs, id))
    } else {
        qs
    }
}

/// The channels that some queue follows.
pub open spec fn live_channels(qs: Seq<MsgQueue>) -> Set<Seq<char>> {
    Set::new(|c: Seq<char>| exists|i: int| 0 <= i < qs.len() && qs[i].channel@ == c)
}

pub open spec fn apply_cmd(bus: Set<Seq<char>>, c: BusCommand) -> Set<Seq<char>> {
    match c.cmd {
        RedisCmd::Subscribe => bus.insert(c.channel@),
        RedisCmd::Unsubscribe => bus.remove(c.channel@),
    }
}

/// The bus's channels after it carried out `cmds`, in order.
pub open spec fn bus_after(bus: Set<Seq<char>>, cmds: Seq<BusCommand>) -> Set<Seq<char>>
    decreases cmds.len(),
{
    if cmds.len() == 0 {
        bus
    } else {
        apply_cmd(bus_after(bus, cmds.drop_last()), cmds.last())
    }
}

/// Every command changes the bus: no channel is subscribed twice, nor one
/// unsubscribed that is not subscribed.
pub open spec fn all_effective(bus: Set<Seq<char>>, cmds: Seq<BusCommand>) -> bool
    decreases cmds.len(),
{
    if cmds.len() == 0 {
        true
    } else {
        &&& all_effective(bus, cmds.drop_last())
        &&& match cmds.last().cmd {
            RedisCmd::Subscribe => !bus_after(bus, cmds.drop_last()).contains(cmds.last().channel@),
            RedisCmd::Unsubscribe => bus_after(bus, cmds.drop_last()).contains(
                cmds.last().channel@,
            ),
        }
    }
}

impl Receiver {
    pub open spec fn wf(&self) -> bool {
        &&& self.cache.wf()
        &&& forall|i: int, j: int|
            0 <= i < j < self.queues@.len() ==> self.queues@[i].id != self.queues@[j].id
        &&& no_colon_ns(ns_view(self.namespace))
        &&& forall|i: int|
            0 <= i < self.queues@.len() ==> queue_ok(#[trigger] self.queues@[i], ns_view(self.namespace))
    }

    pub open spec fn has_client(&self, id: u128) -> bool {
        has_id(self.queues@, id)
    }

    /// The number of clients following the timeline `t`.
    pub open spec fn refcount(&self, t: Timeline) -> nat {
        count_tl(self.queues@, t)
    }

    pub open spec fn channels(&self) -> Set<Seq<char>> {
        live_channels(self.queues@)
    }

    /// A router with no clients and no subscriptions.
    pub fn new(namespace: Option<String>, poll_interval_ms: u64, now_ms: u64) -> (r: Receiver)
        requires
            no_colon_ns(ns_view(namespace)),
        ensures
            r.wf(),
            r.queues@.len() == 0,
            r.namespace == namespace,
            r.poll_interval_ms == poll_interval_ms,
            r.polled_at_ms == now_ms,
            r.redis_input@.len() == 0,
            r.cache.ids() == no_ids(),
            r.cache.names() == no_names(),
            tag_id_cap(r.cache.hashtag_to_id) == TAG_CACHE_CAPACITY,
            tag_name_cap(r.cache.id_to_hashtag) == TAG_CACHE_CAPACITY,
    {
        Receiver {
            namespace,
            poll_interval_ms,
            polled_at_ms: now_ms,
            queues: Vec::new(),
            cache: Cache::new(),
            redis_input: Vec::new(),
        }
    }

    /// Whether some queue follows the channel `c`.
    fn channel_live(&self, c: &String) -> (r: bool)
        ensures
            r == self.channels().contains(c@),
    {
        let mut i: usize = 0;
        while i < self.queues.len()
            invariant
                0 <= i <= self.queues@.len(),
                forall|k: int| 0 <= k < i ==> self.queues@[k].channel@ != c@,
            decreases self.queues@.len() - i,
        {
            if self.queues[i].channel == *c {
                return true;
            }
            i = i + 1;
        }
        false
    }

    /// Where the queue of client `id` stands, if there is one.
    fn find(&self, id: u128) -> (r: Option<usize>)
        requires
            self.wf(),
        ensures
            r.is_some() == self.has_client(id),
            r.is_some() ==> r.unwrap() == index_of(self.queues@, id),
            r.is_some() ==> r.unwrap() < self.queues@.len(),
    {
        let mut i: usize = 0;
        while i < self.queues.len()
            invariant
                self.wf(),
                0 <= i <= self.queues@.len(),
                forall|k: int| 0 <= k < i ==> self.queues@[k].id != id,
            decreases self.queues@.len() - i,
        {
            if self.queues[i].id == id {
                proof {
                    let j = index_of(self.queues@, id);
                    assert(self.queues@[i as int].id == id);
                    assert(0 <= j < self.queues@.len() && self.queues@[j].id == id);
                    if j != i {
                        if j < i {
                            assert(self.queues@[j].id != id);
                        } else {
                            assert(0 <= i < j < self.queues@.len());
                            assert(self.queues@[i as int].id != self.queues@[j].id);
                        }
                    }
                }
                return Some(i);
            }
            i = i + 1;
        }
        None
    }

    /// The channel of a timeline under this router's namespace.
    fn channel_of(&self, tl: Timeline, hashtag: Option<&String>) -> (r: String)
        requires
            is_legal(tl),
            tl.0 is Hashtag ==> hashtag.is_some(),
        ensures
            r@ == wire_in(tl, tag_of(hashtag), ns_view(self.namespace)),
    {
        let raw = tl.to_redis_raw_timeline(hashtag);
        match &self.namespace {
            Some(ns) => {
                let mut out = ns.clone();
                push_char(&mut out, ':');
                out.append(raw.as_str());
                out
            },
            None => raw,
        }
    }

    /// Adds a queue for client `id` on the timeline `tl` (replacing any queue
    /// the client had), and records a hashtag's name and id in the cache.
    /// Gives the commands that bring the bus's subscriptions in line: a
    /// subscription when no queue followed the channel before.
    pub fn manage_new_timeline(
        &mut self,
        id: u128,
        tl: Timeline,
        hashtag: Option<String>,
        now_ms: u64,
    ) -> (r: Vec<BusCommand>)
        requires
            old(self).wf(),
            is_legal(tl),
            tl.0 is Hashtag ==> hashtag is Some,
            hashtag is Some ==> has_no_colon(hashtag->0@),
        ensures
            final(self).wf(),
            final(self).queues@.drop_last() == without(old(self).queues@, id),
            final(self).queues@.len() >= 1,
            final(self).queues@.last().id == id,
            final(self).queues@.last().timeline == tl,
            final(self).queues@.last().channel@ == wire_in(
                tl,
                tag_text(hashtag),
                ns_view(old(self).namespace),
            ),
            final(self).queues@.last().messages@.len() == 0,
            final(self).queues@.last().last_polled_ms == now_ms,
            final(self).has_client(id),
            tl.0 is Hashtag && hashtag is Some ==> final(self).cache.ids().contains_key(
                hashtag->0@,
            ) && final(self).cache.ids()[hashtag->0@] == tl.0->Hashtag_0
                && final(self).cache.names().contains_key(tl.0->Hashtag_0)
                && final(self).cache.names()[tl.0->Hashtag_0] == hashtag->0@,
            final(self).namespace == old(self).namespace,
            final(self).redis_input == old(self).redis_input,
            final(self).polled_at_ms == old(self).polled_at_ms,
            final(self).poll_interval_ms == old(self).poll_interval_ms,
            bus_after(old(self).channels(), r@) == final(self).channels(),
            all_effective(old(self).channels(), r@),
            r@.len() <= 2,
            forall|k: int| 0 <= k < r@.len() && #[trigger] r@[k].cmd == RedisCmd::Unsubscribe ==> k == 0
                && old(self).has_client(id),
            forall|k: int| 0 <= k < r@.len() && #[trigger] r@[k].cmd == RedisCmd::Subscribe ==> k == r@.len() - 1
                && r@[k].channel@ == final(self).queues@.last().channel@,
    {
        let ghost bus0 = self.channels();
        let mut cmds: Vec<BusCommand> = Vec::new();
        let dropped = self.unregister(id);
        match dropped {
            Some(c) => {
                cmds.push(c);
                proof {
                    assert(cmds@ =~= opt_seq(dropped));
                    assert(old(self).has_client(id));
                    assert(c.cmd == RedisCmd::Unsubscribe);
                }
            },
            None => {
                proof {
                    assert(cmds@ =~= opt_seq(dropped));
                }
            },
        }
        let ghost mid = self.queues@;
        let tag = match hashtag {
            Some(h) => h,
            None => String::new(),
        };
        match tl.0 {
            Stream::Hashtag(tid) => {
                self.cache.put(tag.clone(), tid);
            },
            _ => {},
        }
        let channel = self.channel_of(tl, Some(&tag));
        let live = self.channel_live(&channel);
        let q = MsgQueue {
            id,
            timeline: tl,
            tag,
            channel: channel.clone(),
            messages: Vec::new(),
            last_polled_ms: now_ms,
        };
        self.queues.push(q);
        proof {
            assert(self.queues@.drop_last() =~= mid);
            assert(live_channels(self.queues@) =~= live_channels(mid).insert(channel@)) by {
                assert forall|c: Seq<char>| #[trigger] live_channels(self.queues@).contains(c)
                    <==> live_channels(mid).insert(channel@).contains(c) by {
                    if live_channels(mid).contains(c) {
                        let k = choose|k: int| 0 <= k < mid.len() && mid[k].channel@ == c;
                        assert(self.queues@[k] == mid[k]);
                    }
                    if live_channels(self.queues@).contains(c) {
                        let k = choose|k: int| 0 <= k < self.queues@.len() && self.queues@[k].channel@ == c;
                        if k < mid.len() {
                            assert(self.queues@[k] == mid[k]);
                        }
                    }
                }
            }
            assert(has_id(self.queues@, id)) by {
                assert(self.queues@[self.queues@.len() - 1].id == id);
            }
            assert forall|i: int, j: int|
                0 <= i < j < self.queues@.len() implies self.queues@[i].id != self.queues@[j].id by {
                if j == self.queues@.len() - 1 {
                    assert(self.queues@[i] == mid[i]);
                    if mid[i].id == id {
                        assert(has_id(mid, id));
                    }
                } else {
                    assert(self.queues@[i] == mid[i]);
                    assert(self.queues@[j] == mid[j]);
                }
            }
            assert forall|i: int| 0 <= i < self.queues@.len() implies queue_ok(
                #[trigger] self.queues@[i],
                ns_view(self.namespace),
            ) by {
                if i < mid.len() {
                    assert(self.queues@[i] == mid[i]);
                }
            }
        }
        if !live {
            let ghost before = cmds@;
            cmds.push(BusCommand { cmd: RedisCmd::Subscribe, channel });
            proof {
                lemma_bus_push(bus0, before, cmds@.last());
                assert(cmds@ =~= before.push(cmds@.last()));
            }
        }
        cmds
    }

    /// Appends `payload` to every queue that follows the timeline `t`.
    fn deliver(&mut self, t: Timeline, payload: &String)
        requires
            old(self).wf(),
        ensures
            final(self).wf(),
            same_but_messages(*old(self), *final(self)),
            final(self).cache == old(self).cache,
            final(self).redis_input == old(self).redis_input,
            final(self).polled_at_ms == old(self).polled_at_ms,
            forall|i: int| 0 <= i < final(self).queues@.len() ==> #[trigger] texts(final(self).queues@[i].messages@)
                == texts(old(self).queues@[i].messages@) + if old(self).queues@[i].timeline == t {
                    seq![payload@]
                } else {
                    Seq::<Seq<char>>::empty()
                },
    {
        let ghost start = *self;
        let n = self.queues.len();
        let mut i: usize = 0;
        while i < n
            invariant
                n == self.queues@.len(),
                0 <= i <= n,
                start.wf(),
                self.wf(),
                same_but_messages(start, *self),
                self.cache == start.cache,
                self.redis_input == start.redis_input,
                self.polled_at_ms == start.polled_at_ms,
                forall|k: int| 0 <= k < i ==> #[trigger] texts(self.queues@[k].messages@)
                    == texts(start.queues@[k].messages@) + if start.queues@[k].timeline == t {
                        seq![payload@]
                    } else {
                        Seq::<Seq<char>>::empty()
                    },
                forall|k: int| i <= k < n ==> #[trigger] self.queues@[k] == start.queues@[k],
            decreases n - i,
        {
            if self.queues[i].timeline == t {
                let ghost before = self.queues@;
                self.queues[i].messages.push(payload.clone());
                proof {
                    assert(texts(self.queues@[i as int].messages@) =~= texts(start.queues@[i as int].messages@) + seq![payload@]);
                    assert forall|k: int| 0 <= k < n && k != i implies self.queues@[k] == before[k] by {}
                    assert forall|k: int| 0 <= k < n implies queue_ok(
                        #[trigger] self.queues@[k],
                        ns_view(self.namespace),
                    ) by {
                        assert(self.queues@[k].channel == before[k].channel);
                        assert(self.queues@[k].tag == before[k].tag);
                    }
                }
            } else {
                proof {
                    assert(texts(self.queues@[i as int].messages@) =~= texts(start.queues@[i as int].messages@) + Seq::<Seq<char>>::empty());
                }
            }
            i = i + 1;
        }
    }

    /// Takes bytes read from the bus. Every whole frame in what was kept and
    /// these bytes is read in order; each delivery's channel is decoded, under
    /// the namespace and with the hashtag cache, and its payload appended to
    /// every queue of that timeline. What is not yet a whole frame is kept
    /// for the next read. The report counts the malformed stretches passed
    /// over, and the deliveries on a hashtag the cache does not hold: those
    /// mean that a subscription did not seed the cache, which the caller
    /// must treat as fatal.
    pub fn receive(&mut self, bytes: &[u8], now_ms: u64) -> (r: DrainReport)
        requires
            old(self).wf(),
        ensures
            final(self).wf(),
            same_but_messages(*old(self), *final(self)),
            final(self).polled_at_ms == now_ms,
            final(self).redis_input@ == drain(parsed_part(old(self).redis_input@ + bytes@)).1 + held_part(
                old(self).redis_input@ + bytes@,
            ),
            forall|i: int| 0 <= i < final(self).queues@.len() ==> #[trigger] texts(final(self).queues@[i].messages@)
                == texts(old(self).queues@[i].messages@) + routed(
                    drain(parsed_part(old(self).redis_input@ + bytes@)).0,
                    old(self).queues@[i].timeline,
                    ns_view(old(self).namespace),
                    old(self).cache.ids(),
                ),
            r.malformed == malformed_count(parsed_part(old(self).redis_input@ + bytes@)),
            r.bad_payloads == bad_payload_count(drain(parsed_part(old(self).redis_input@ + bytes@)).0),
            r.missing_hashtags == missing_count(
                drain(parsed_part(old(self).redis_input@ + bytes@)).0,
                ns_view(old(self).namespace),
                old(self).cache.ids(),
            ),
    {
        let ghost start = *self;
        let ghost ns = ns_view(start.namespace);
        let ghost ids = start.cache.ids();
        let mut buf: Vec<u8> = Vec::new();
        core::mem::swap(&mut buf, &mut self.redis_input);
        buf.extend_from_slice(bytes);
        let ghost whole = buf@;
        assert(whole =~= start.redis_input@ + bytes@);
        let cut = valid_prefix_len(buf.as_slice());
        proof {
            lemma_utf8_cut_unique(whole, cut as int);
        }
        let vbuf = slice_subrange(buf.as_slice(), 0, cut);
        let ghost all = vbuf@;
        assert(all =~= parsed_part(whole));
        let n = cut;
        let mut pos: usize = 0;
        let ghost mut done: Seq<(Seq<char>, Seq<char>)> = Seq::empty();
        let mut stop = false;
        let mut malformed: usize = 0;
        let mut missing: usize = 0;
        let mut bad: usize = 0;
        proof {
            assert(all.skip(0) =~= all);
        }
        while pos < n && !stop
            invariant
                stop ==> drain(all.skip(pos as int)) == (Seq::<(Seq<char>, Seq<char>)>::empty(), all.skip(pos as int))
                    && malformed_count(all.skip(pos as int)) == 0,
                n == vbuf@.len(),
                vbuf@ == all,
                buf@ == whole,
                all == parsed_part(whole),
                0 <= pos <= n,
                malformed + missing <= pos,
                bad <= pos,
                bad == bad_payload_count(done),
                start.wf(),
                self.wf(),
                same_but_messages(start, *self),
                self.cache.ids() == ids,
                ids == start.cache.ids(),
                ns == ns_view(start.namespace),
                self.namespace == start.namespace,
                drain(all).0 == done + drain(all.skip(pos as int)).0,
                drain(all).1 == drain(all.skip(pos as int)).1,
                malformed_count(all) == malformed + malformed_count(all.skip(pos as int)),
                missing == missing_count(done, ns, ids),
                forall|i: int| 0 <= i < self.queues@.len() ==> #[trigger] texts(self.queues@[i].messages@)
                    == texts(start.queues@[i].messages@) + routed(done, start.queues@[i].timeline, ns, ids),
            decreases n - pos + if stop { 0int } else { 1int },
        {
            let rest = slice_subrange(vbuf, pos, n);
            proof {
                assert(rest@ =~= all.skip(pos as int));
            }
            match try_parse(rest) {
                RedisParseOutput::Incomplete => {
                    stop = true;
                },
                RedisParseOutput::Malformed => {
                    let mut k: usize = pos + 1;
                    proof {
                        assert(rest@.len() > 0);
                    }
                    while k < n && vbuf[k] != 42
                        invariant
                            n == vbuf@.len(),
                            vbuf@ == all,
                            pos < k <= n,
                            rest@ == all.skip(pos as int),
                            next_frame_start(rest@, 1) == next_frame_start(rest@, k - pos),
                        decreases n - k,
                    {
                        assert(rest@[k - pos] == vbuf@[k as int]);
                        k = k + 1;
                    }
                    proof {
                        if k < n {
                            assert(rest@[k - pos] == vbuf@[k as int]);
                        }
                        assert(next_frame_start(rest@, k - pos) == k - pos);
                        assert(rest@.skip(k - pos) =~= all.skip(k as int));
                    }
                    if k == n {
                        stop = true;
                    } else {
                        pos = k;
                        malformed = malformed + 1;
                    }
                },
                RedisParseOutput::NonMsg(e) => {
                    proof {
                        assert(rest@.skip(e as int) =~= all.skip(pos + e));
                    }
                    pos = pos + e;
                },
                RedisParseOutput::Msg(m) => {
                    let ghost item = (m.timeline_txt@, m.event_txt@);
                    let ghost before = *self;
                    let decoded = Timeline::from_redis_raw_timeline(
                        m.timeline_txt.as_str(),
                        &mut self.cache.hashtag_to_id,
                        &self.namespace,
                    );
                    proof {
                        assert(ns == ns_view(self.namespace));
                        assert(decoded == decode(split(item.0), ns, ids));
                        lemma_routed_push(done, item, ns, ids);
                        assert(rest@.skip(m.consumed as int) =~= all.skip(pos + m.consumed));
                        assert(drain(all.skip(pos as int)).0 =~= seq![item] + drain(all.skip(pos + m.consumed)).0);
                        assert(done + drain(all.skip(pos as int)).0 =~= done.push(item) + drain(all.skip(pos + m.consumed)).0);
                        assert(same_but_messages(start, *self));
                    }
                    let event = is_event(&m.event_txt);
                    if !event {
                        bad = bad + 1;
                    }
                    proof {
                        lemma_bad_push(done, item);
                    }
                    match decoded {
                        Ok(t) if event => {
                            let ghost mid = *self;
                            self.deliver(t, &m.event_txt);
                            proof {
                                assert forall|i: int| 0 <= i < self.queues@.len() implies #[trigger] texts(self.queues@[i].messages@)
                                    == texts(start.queues@[i].messages@) + routed(done.push(item), start.queues@[i].timeline, ns, ids) by {
                                    assert(mid.queues@[i].timeline == start.queues@[i].timeline);
                                    assert(texts(self.queues@[i].messages@) =~= texts(start.queues@[i].messages@) + routed(done.push(item), start.queues@[i].timeline, ns, ids));
                                }
                            }
                        },
                        _ => {
                            proof {
                                assert forall|i: int| 0 <= i < self.queues@.len() implies #[trigger] texts(self.queues@[i].messages@)
                                    == texts(start.queues@[i].messages@) + routed(done.push(item), start.queues@[i].timeline, ns, ids) by {
                                    assert(routed(done.push(item), start.queues@[i].timeline, ns, ids) =~= routed(done, start.queues@[i].timeline, ns, ids));
                                }
                            }
                            match decoded {
                                Err(TimelineErr::MissingHashtag) => {
                                    missing = missing + 1;
                                },
                                _ => {},
                            }
                        },
                    }
                    proof {
                        done = done.push(item);
                    }
                    pos = pos + m.consumed;
                },
            }
        }
        let left = slice_to_vec(slice_subrange(buf.as_slice(), pos, buf.len()));
        proof {
            assert(left@ =~= all.skip(pos as int) + held_part(whole));
            if !stop {
                assert(all.skip(pos as int) =~= Seq::<u8>::empty());
                assert(frame_shape(Seq::<u8>::empty()) is Incomplete);
                assert(drain(all.skip(pos as int)).0 =~= Seq::<(Seq<char>, Seq<char>)>::empty());
            }
            assert(done + drain(all.skip(pos as int)).0 =~= done);
            assert(drain(all).0 == done);
            assert(drain(all).1 + held_part(whole) == left@);
        }
        self.redis_input = left;
        self.polled_at_ms = now_ms;
        DrainReport { malformed, missing_hashtags: missing, bad_payloads: bad }
    }

    /// Whether the bus is due to be read: `poll_interval_ms` has passed since
    /// it was last read.
    pub fn poll_due(&self, now_ms: u64) -> (r: bool)
        ensures
            r == (now_ms >= self.polled_at_ms && now_ms - self.polled_at_ms >= self.poll_interval_ms),
    {
        now_ms >= self.polled_at_ms && now_ms - self.polled_at_ms >= self.poll_interval_ms
    }

    /// Takes the oldest event from client `id`'s queue and records when it
    /// was polled. A client without a queue gets `NotReady`.
    pub fn poll(&mut self, id: u128, now_ms: u64) -> (r: Polled)
        requires
            old(self).wf(),
        ensures
            final(self).wf(),
            polled(*old(self), *final(self), id, now_ms, r),
    {
        match self.find(id) {
            None => Polled::NotReady,
            Some(i) => {
                let ghost before = self.queues@;
                self.queues[i].last_polled_ms = now_ms;
                proof {
                    assert forall|k: int| 0 <= k < before.len() && k != i implies self.queues@[k] == before[k] by {}
                }
                if self.queues[i].messages.len() == 0 {
                    Polled::NotReady
                } else {
                    let ghost mid = self.queues@;
                    let e = self.queues[i].messages.remove(0);
                    proof {
                        assert forall|k: int| 0 <= k < mid.len() && k != i implies self.queues@[k] == mid[k] by {}
                        assert(texts(self.queues@[i as int].messages@) =~= texts(before[i as int].messages@).drop_first());
                    }
                    Polled::Ready(e)
                }
            },
        }
    }

    /// The timeline that a bus channel names, under this router's namespace,
    /// with hashtag ids from the router's cache.
    pub fn timeline_of(&mut self, channel: &str) -> (r: Result<Timeline, TimelineErr>)
        requires
            old(self).wf(),
        ensures
            final(self).wf(),
            r == decode(split(channel@), ns_view(old(self).namespace), old(self).cache.ids()),
            final(self).cache.ids() == old(self).cache.ids(),
            final(self).cache.names() == old(self).cache.names(),
            final(self).queues == old(self).queues,
            final(self).namespace == old(self).namespace,
            final(self).redis_input == old(self).redis_input,
            final(self).polled_at_ms == old(self).polled_at_ms,
            final(self).poll_interval_ms == old(self).poll_interval_ms,
    {
        Timeline::from_redis_raw_timeline(channel, &mut self.cache.hashtag_to_id, &self.namespace)
    }

    /// How many clients follow the timeline `t`.
    pub fn subscriber_count(&self, t: Timeline) -> (r: usize)
        ensures
            r == self.refcount(t),
    {
        let mut c: usize = 0;
        let mut i: usize = 0;
        while i < self.queues.len()
            invariant
                0 <= i <= self.queues@.len(),
                c == count_tl(self.queues@.take(i as int), t),
                c <= i,
            decreases self.queues@.len() - i,
        {
            proof {
                assert(self.queues@.take(i as int + 1).drop_last() =~= self.queues@.take(i as int));
            }
            if self.queues[i].timeline == t {
                c = c + 1;
            }
            i = i + 1;
        }
        proof {
            assert(self.queues@.take(i as int) =~= self.queues@);
        }
        c
    }

    /// The commands that drop every channel still followed, each once, as
    /// the router is shut down.
    pub fn unsubscribe_all(&self) -> (r: Vec<BusCommand>)
        ensures
            bus_after(self.channels(), r@) == Set::<Seq<char>>::empty(),
            all_effective(self.channels(), r@),
    {
        let mut cmds: Vec<BusCommand> = Vec::new();
        let mut i: usize = 0;
        let n = self.queues.len();
        proof {
            assert(self.queues@.skip(0) =~= self.queues@);
            assert(bus_after(self.channels(), cmds@) == self.channels());
        }
        while i < n
            invariant
                n == self.queues@.len(),
                0 <= i <= n,
                all_effective(self.channels(), cmds@),
                bus_after(self.channels(), cmds@) == live_channels(self.queues@.skip(i as int)),
            decreases n - i,
        {
            let ghost rest = self.queues@.skip(i as int + 1);
            let ghost here = self.queues@.skip(i as int);
            proof {
                assert(here.drop_first() =~= rest);
            }
            let c = &self.queues[i].channel;
            let mut j: usize = i + 1;
            let mut later = false;
            while j < n && !later
                invariant
                    n == self.queues@.len(),
                    i < j <= n,
                    c@ == self.queues@[i as int].channel@,
                    later ==> live_channels(self.queues@.skip(i as int + 1)).contains(c@),
                    !later ==> forall|k: int| i < k < j ==> self.queues@[k].channel@ != c@,
                decreases n - j + if later { 0int } else { 1int },
            {
                if self.queues[j].channel == *c {
                    proof {
                        assert(self.queues@.skip(i as int + 1)[j - i - 1] == self.queues@[j as int]);
                    }
                    later = true;
                } else {
                    j = j + 1;
                }
            }
            proof {
                if !later {
                    assert(!live_channels(rest).contains(c@)) by {
                        if live_channels(rest).contains(c@) {
                            let k = choose|k: int| 0 <= k < rest.len() && rest[k].channel@ == c@;
                            assert(rest[k] == self.queues@[i + 1 + k]);
                        }
                    }
                }
                assert(live_channels(here) =~= live_channels(rest).insert(c@)) by {
                    assert forall|x: Seq<char>| #[trigger] live_channels(here).contains(x)
                        <==> live_channels(rest).insert(c@).contains(x) by {
                        if live_channels(here).contains(x) {
                            let k = choose|k: int| 0 <= k < here.len() && here[k].channel@ == x;
                            if k > 0 {
                                assert(rest[k - 1] == here[k]);
                            }
                        }
                        if live_channels(rest).contains(x) {
                            let k = choose|k: int| 0 <= k < rest.len() && rest[k].channel@ == x;
                            assert(here[k + 1] == rest[k]);
                        }
                        assert(here[0] == self.queues@[i as int]);
                    }
                }
            }
            if !later {
                let ghost before = cmds@;
                cmds.push(BusCommand { cmd: RedisCmd::Unsubscribe, channel: c.clone() });
                proof {
                    lemma_bus_push(self.channels(), before, cmds@.last());
                    assert(cmds@ =~= before.push(cmds@.last()));
                    assert(live_channels(rest) =~= live_channels(here).remove(c@));
                }
            }
            i = i + 1;
        }
        proof {
            assert(live_channels(self.queues@.skip(n as int)) =~= Set::<Seq<char>>::empty());
        }
        cmds
    }

    /// Removes the queue of client `id`, with its pending events. Gives the
    /// command that drops its channel from the bus when no other queue
    /// follows it.
    pub fn unregister(&mut self, id: u128) -> (r: Option<BusCommand>)
        requires
            old(self).wf(),
        ensures
            final(self).wf(),
            final(self).queues@ == without(old(self).queues@, id),
            !final(self).has_client(id),
            final(self).namespace == old(self).namespace,
            final(self).cache == old(self).cache,
            final(self).redis_input == old(self).redis_input,
            final(self).polled_at_ms == old(self).polled_at_ms,
            final(self).poll_interval_ms == old(self).poll_interval_ms,
            bus_after(old(self).channels(), opt_seq(r)) == final(self).channels(),
            all_effective(old(self).channels(), opt_seq(r)),
            r is Some ==> r->0.cmd == RedisCmd::Unsubscribe && old(self).has_client(id),
    {
        let ghost qs = self.queues@;
        match self.find(id) {
            None => {
                proof {
                    assert(bus_after(old(self).channels(), opt_seq(None)) == old(self).channels());
                    assert(all_effective(old(self).channels(), opt_seq(None)));
                }
                None
            },
            Some(i) => {
                let q = self.queues.remove(i);
                proof {
                    lemma_remove_keeps(qs, i as int);
                    assert(self.queues@ == qs.remove(i as int));
                    assert(!has_id(self.queues@, id)) by {
                        if has_id(self.queues@, id) {
                            let k = choose|k: int| 0 <= k < self.queues@.len() && self.queues@[k].id == id;
                            if k < i {
                                assert(qs[k] == self.queues@[k]);
                            } else {
                                assert(qs[k + 1] == self.queues@[k]);
                            }
                        }
                    }
                }
                if self.channel_live(&q.channel) {
                    proof {
                        assert(live_channels(qs) =~= live_channels(self.queues@)) by {
                            lemma_live_after_remove(qs, i as int);
                        }
                        assert(bus_after(live_channels(qs), opt_seq(None)) == live_channels(qs));
                        assert(all_effective(live_channels(qs), opt_seq(None)));
                    }
                    None
                } else {
                    let cmd = BusCommand { cmd: RedisCmd::Unsubscribe, channel: q.channel };
                    proof {
                        lemma_live_after_remove(qs, i as int);
                        assert(live_channels(qs).contains(qs[i as int].channel@));
                        assert(live_channels(qs).remove(cmd.channel@) =~= live_channels(self.queues@));
                        let s = opt_seq(Some(cmd));
                        assert(s.drop_last() =~= Seq::<BusCommand>::empty());
                        assert(bus_after(live_channels(qs), s.drop_last()) == live_channels(qs));
                        assert(all_effective(live_channels(qs), s.drop_last()));
                        assert(bus_after(live_channels(qs), s) == live_channels(self.queues@));
                    }
                    Some(cmd)
                }
            },
        }
    }
}

pub open spec fn opt_seq(o: Option<BusCommand>) -> Seq<BusCommand> {
    match o {
        Some(c) => seq![c],
        None => Seq::empty(),
    }
}

/// Removing a queue keeps the others well formed and apart.
proof fn lemma_remove_keeps(qs: Seq<MsgQueue>, i: int)
    requires
        0 <= i < qs.len(),
    ensures
        forall|k: int| 0 <= k < i ==> qs.remove(i)[k] == qs[k],
        forall|k: int| i <= k < qs.len() - 1 ==> qs.remove(i)[k] == qs[k + 1],
{
}

/// After removing queue `i`, the live channels are those of the other queues.
proof fn lemma_live_after_remove(qs: Seq<MsgQueue>, i: int)
    requires
        0 <= i < qs.len(),
    ensures
        forall|c: Seq<char>| #[trigger] live_channels(qs).contains(c) <==> (live_channels(qs.remove(i)).contains(c) || c == qs[i].channel@),
{
    let r = qs.remove(i);
    assert forall|c: Seq<char>| #[trigger] live_channels(qs).contains(c) <==> (live_channels(r).contains(c) || c == qs[i].channel@) by {
        if live_channels(qs).contains(c) {
            let k = choose|k: int| 0 <= k < qs.len() && qs[k].channel@ == c;
            if k < i {
                assert(r[k] == qs[k]);
            } else if k > i {
                assert(r[k - 1] == qs[k]);
            }
        }
        if live_channels(r).contains(c) {
            let k = choose|k: int| 0 <= k < r.len() && r[k].channel@ == c;
            if k < i {
                assert(r[k] == qs[k]);
            } else {
                assert(r[k] == qs[k + 1]);
            }
        }
    }
}

pub open spec fn tag_text(h: Option<String>) -> Seq<char> {
    match h {
        Some(s) => s@,
        None => Seq::empty(),
    }
}

proof fn lemma_bus_push(bus: Set<Seq<char>>, s: Seq<BusCommand>, c: BusCommand)
    ensures
        bus_after(bus, s.push(c)) == apply_cmd(bus_after(bus, s), c),
        all_effective(bus, s.push(c)) == (all_effective(bus, s) && match c.cmd {
            RedisCmd::Subscribe => !bus_after(bus, s).contains(c.channel@),
            RedisCmd::Unsubscribe => bus_after(bus, s).contains(c.channel@),
        }),
{
    assert(s.push(c).drop_last() =~= s);
}

/// Two router states that differ at most in what their queues hold.
pub open spec fn same_but_messages(a: Receiver, b: Receiver) -> bool {
    &&& a.namespace == b.namespace
    &&& a.poll_interval_ms == b.poll_interval_ms
    &&& a.cache.ids() == b.cache.ids()
    &&& a.cache.names() == b.cache.names()
    &&& a.queues@.len() == b.queues@.len()
    &&& forall|i: int| 0 <= i < a.queues@.len() ==> {
        let (p, q) = (#[trigger] a.queues@[i], b.queues@[i]);
        &&& p.id == q.id
        &&& p.timeline == q.timeline
        &&& p.tag == q.tag
        &&& p.channel == q.channel
        &&& p.last_polled_ms == q.last_polled_ms
    }
}

/// What polling client `id` at `now_ms` does: without a queue, nothing; else
/// the queue records the time, and hands out its oldest event if it has one.
pub open spec fn polled(a: Receiver, b: Receiver, id: u128, now_ms: u64, r: Polled) -> bool {
    &&& a.namespace == b.namespace
    &&& a.poll_interval_ms == b.poll_interval_ms
    &&& a.polled_at_ms == b.polled_at_ms
    &&& a.redis_input == b.redis_input
    &&& a.cache == b.cache
    &&& if !has_id(a.queues@, id) {
        &&& r is NotReady
        &&& b.queues@ == a.queues@
    } else {
        let i = index_of(a.queues@, id);
        let q = a.queues@[i];
        let msgs = texts(q.messages@);
        &&& b.queues@.len() == a.queues@.len()
        &&& forall|k: int| 0 <= k < a.queues@.len() && k != i ==> #[trigger] b.queues@[k] == a.queues@[k]
        &&& b.queues@[i].id == q.id
        &&& b.queues@[i].timeline == q.timeline
        &&& b.queues@[i].tag == q.tag
        &&& b.queues@[i].channel == q.channel
        &&& b.queues@[i].last_polled_ms == now_ms
        &&& if msgs.len() == 0 {
            &&& r is NotReady
            &&& texts(b.queues@[i].messages@) == msgs
        } else {
            &&& r is Ready
            &&& r->Ready_0@ == msgs[0]
            &&& texts(b.queues@[i].messages@) == msgs.drop_first()
        }
    }
}

/// The first index from `i` on that starts a frame (`*`), or the length.
pub open spec fn next_frame_start(b: Seq<u8>, i: int) -> int
    decreases b.len() - i,
{
    if i < 0 || i >= b.len() {
        b.len() as int
    } else if b[i] == 42 {
        i
    } else {
        next_frame_start(b, i + 1)
    }
}

/// Reads every whole frame of `b` in order: the deliveries found, as
/// (channel, payload), and the bytes left for later. Bytes that form no frame
/// are passed over up to the next `*`; with no `*` after them they are kept,
/// as they may be the start of what the next read completes.
pub open spec fn drain(b: Seq<u8>) -> (Seq<(Seq<char>, Seq<char>)>, Seq<u8>)
    decreases b.len(),
{
    match frame_shape(b) {
        FrameShape::Incomplete => (Seq::empty(), b),
        FrameShape::Malformed => {
            let k = next_frame_start(b, 1);
            if 0 < k < b.len() {
                drain(b.skip(k))
            } else {
                (Seq::empty(), b)
            }
        },
        FrameShape::NonMsg(e) => if 0 < e <= b.len() {
            drain(b.skip(e))
        } else {
            (Seq::empty(), b)
        },
        FrameShape::Msg(s1, l1, s2, l2, e) => if 0 < e <= b.len() {
            let rest = drain(b.skip(e));
            let ch = b.subrange(s1, s1 + l1);
            let pl = b.subrange(s2, s2 + l2);
            if valid_utf8(ch) && valid_utf8(pl) {
                (seq![(decode_utf8(ch), decode_utf8(pl))] + rest.0, rest.1)
            } else {
                rest
            }
        } else {
            (Seq::empty(), b)
        },
    }
}

/// How many stretches of bytes that form no frame `drain` passes over.
pub open spec fn malformed_count(b: Seq<u8>) -> nat
    decreases b.len(),
{
    match frame_shape(b) {
        FrameShape::Incomplete => 0,
        FrameShape::Malformed => {
            let k = next_frame_start(b, 1);
            if 0 < k < b.len() {
                1 + malformed_count(b.skip(k))
            } else {
                0
            }
        },
        FrameShape::NonMsg(e) => if 0 < e <= b.len() {
            malformed_count(b.skip(e))
        } else {
            0
        },
        FrameShape::Msg(_, _, _, _, e) => if 0 < e <= b.len() {
            malformed_count(b.skip(e))
        } else {
            0
        },
    }
}

/// An event's text: a JSON object, from `{` to `}`.
pub open spec fn is_event_text(p: Seq<char>) -> bool {
    p.len() >= 2 && p[0] == '{' && p[p.len() - 1] == '}'
}

/// How many deliveries carry a payload that is no event.
pub open spec fn bad_payload_count(ds: Seq<(Seq<char>, Seq<char>)>) -> nat
    decreases ds.len(),
{
    if ds.len() == 0 {
        0
    } else {
        bad_payload_count(ds.drop_last()) + if is_event_text(ds.last().1) {
            0nat
        } else {
            1nat
        }
    }
}

proof fn lemma_bad_push(ds: Seq<(Seq<char>, Seq<char>)>, d: (Seq<char>, Seq<char>))
    ensures
        bad_payload_count(ds.push(d)) == bad_payload_count(ds) + if is_event_text(d.1) {
            0nat
        } else {
            1nat
        },
{
    assert(ds.push(d).drop_last() =~= ds);
}

/// The bytes of `b` that are parsed now: its longest UTF-8 prefix.
pub open spec fn parsed_part(b: Seq<u8>) -> Seq<u8> {
    b.take(utf8_cut(b))
}

/// The bytes after the longest UTF-8 prefix, kept for the next read.
pub open spec fn held_part(b: Seq<u8>) -> Seq<u8> {
    b.skip(utf8_cut(b))
}

/// Whether a payload is an event's text.
fn is_event(p: &String) -> (r: bool)
    ensures
        r == is_event_text(p@),
{
    let c = chars_of(p.as_str());
    let n = c.len();
    n >= 2 && c[0] == '{' && c[n - 1] == '}'
}

/// The payloads of the deliveries whose channel decodes to `t` and which
/// carry an event, in order.
pub open spec fn routed(
    ds: Seq<(Seq<char>, Seq<char>)>,
    t: Timeline,
    ns: Option<Seq<char>>,
    ids: Map<Seq<char>, i64>,
) -> Seq<Seq<char>>
    decreases ds.len(),
{
    if ds.len() == 0 {
        Seq::empty()
    } else {
        routed(ds.drop_last(), t, ns, ids) + if decode(split(ds.last().0), ns, ids) == Ok::<
            Timeline,
            TimelineErr,
        >(t) && is_event_text(ds.last().1) {
            seq![ds.last().1]
        } else {
            Seq::<Seq<char>>::empty()
        }
    }
}

/// How many deliveries name a hashtag that the cache does not hold.
pub open spec fn missing_count(
    ds: Seq<(Seq<char>, Seq<char>)>,
    ns: Option<Seq<char>>,
    ids: Map<Seq<char>, i64>,
) -> nat
    decreases ds.len(),
{
    if ds.len() == 0 {
        0
    } else {
        missing_count(ds.drop_last(), ns, ids) + if decode(split(ds.last().0), ns, ids) == Err::<
            Timeline,
            TimelineErr,
        >(TimelineErr::MissingHashtag) {
            1nat
        } else {
            0nat
        }
    }
}

proof fn lemma_routed_push(
    ds: Seq<(Seq<char>, Seq<char>)>,
    d: (Seq<char>, Seq<char>),
    ns: Option<Seq<char>>,
    ids: Map<Seq<char>, i64>,
)
    ensures
        forall|t: Timeline| #[trigger] routed(ds.push(d), t, ns, ids) == routed(ds, t, ns, ids) + if decode(split(d.0), ns, ids) == Ok::<
            Timeline,
            TimelineErr,
        >(t) && is_event_text(d.1) {
            seq![d.1]
        } else {
            Seq::<Seq<char>>::empty()
        },
        missing_count(ds.push(d), ns, ids) == missing_count(ds, ns, ids) + if decode(split(d.0), ns, ids) == Err::<
            Timeline,
            TimelineErr,
        >(TimelineErr::MissingHashtag) {
            1nat
        } else {
            0nat
        },
{
    assert(ds.push(d).drop_last() =~= ds);
}

proof fn lemma_count_push(qs: Seq<MsgQueue>, q: MsgQueue, t: Timeline)
    ensures
        count_tl(qs.push(q), t) == count_tl(qs, t) + if q.timeline == t { 1nat } else { 0nat },
{
    assert(qs.push(q).drop_last() =~= qs);
}

proof fn lemma_count_remove(qs: Seq<MsgQueue>, i: int, t: Timeline)
    requires
        0 <= i < qs.len(),
    ensures
        count_tl(qs, t) == count_tl(qs.remove(i), t) + if qs[i].timeline == t { 1nat } else { 0nat },
    decreases qs.len(),
{
    if i == qs.len() - 1 {
        assert(qs.remove(i) =~= qs.drop_last());
    } else {
        let p = qs.drop_last();
        lemma_count_remove(p, i, t);
        assert(qs.remove(i) =~= p.remove(i).push(qs.last()));
        lemma_count_push(p.remove(i), qs.last(), t);
    }
}

proof fn lemma_count_positive(qs: Seq<MsgQueue>, k: int)
    requires
        0 <= k < qs.len(),
    ensures
        count_tl(qs, qs[k].timeline) > 0,
    decreases qs.len(),
{
    if k < qs.len() - 1 {
        lemma_count_positive(qs.drop_last(), k);
        assert(qs.drop_last()[k] == qs[k]);
    }
}

/// Registering a new client on `tl` adds one to the count of `tl` and leaves
/// every other timeline's count as it was.
pub proof fn lemma_register_counts(a: Receiver, b: Receiver, id: u128, tl: Timeline)
    requires
        !a.has_client(id),
        b.queues@.len() >= 1,
        b.queues@.drop_last() == without(a.queues@, id),
        b.queues@.last().timeline == tl,
    ensures
        b.refcount(tl) == a.refcount(tl) + 1,
        forall|t: Timeline| t != tl ==> #[trigger] b.refcount(t) == a.refcount(t),
{
    assert(b.queues@ =~= a.queues@.push(b.queues@.last()));
    lemma_count_push(a.queues@, b.queues@.last(), tl);
    assert forall|t: Timeline| t != tl implies #[trigger] b.refcount(t) == a.refcount(t) by {
        lemma_count_push(a.queues@, b.queues@.last(), t);
    }
}

/// Unregistering a client takes one off the count of its timeline and leaves
/// every other timeline's count as it was.
pub proof fn lemma_unregister_counts(a: Receiver, b: Receiver, id: u128)
    requires
        a.has_client(id),
        b.queues@ == without(a.queues@, id),
    ensures
        b.refcount(a.queues@[index_of(a.queues@, id)].timeline) + 1 == a.refcount(
            a.queues@[index_of(a.queues@, id)].timeline,
        ),
        forall|t: Timeline| t != a.queues@[index_of(a.queues@, id)].timeline ==> #[trigger] b.refcount(t) == a.refcount(t),
{
    let i = index_of(a.queues@, id);
    lemma_count_remove(a.queues@, i, a.queues@[i].timeline);
    assert forall|t: Timeline| t != a.queues@[i].timeline implies #[trigger] b.refcount(t) == a.refcount(t) by {
        lemma_count_remove(a.queues@, i, t);
    }
}

/// Every channel that the router keeps subscribed is the channel of a
/// timeline with at least one client.
pub proof fn lemma_live_channel_has_clients(r: Receiver, c: Seq<char>)
    requires
        r.wf(),
        r.channels().contains(c),
    ensures
        exists|t: Timeline, tag: Seq<char>| r.refcount(t) > 0 && is_legal(t) && #[trigger] wire_in(t, tag, ns_view(r.namespace)) == c,
{
    let k = choose|k: int| 0 <= k < r.queues@.len() && r.queues@[k].channel@ == c;
    let q = r.queues@[k];
    lemma_count_positive(r.queues@, k);
    assert(r.refcount(q.timeline) > 0 && is_legal(q.timeline) && wire_in(q.timeline, q.tag@, ns_view(r.namespace)) == c);
}

/// A client without a queue gets nothing from a poll, and stays without one,
/// also when the bus delivers in between.
pub proof fn lemma_gone_client_not_ready(
    a: Receiver,
    b: Receiver,
    c: Receiver,
    id: u128,
    now_ms: u64,
    r: Polled,
)
    requires
        !a.has_client(id),
        same_but_messages(a, b),
        polled(b, c, id, now_ms, r),
    ensures
        r is NotReady,
        !c.has_client(id),
{
    assert(!b.has_client(id)) by {
        if b.has_client(id) {
            let k = choose|k: int| 0 <= k < b.queues@.len() && b.queues@[k].id == id;
            assert(a.queues@[k].id == id);
        }
    }
}

proof fn lemma_nfs_bounds(b: Seq<u8>, i: int)
    requires
        0 <= i <= b.len(),
    ensures
        i <= next_frame_start(b, i) <= b.len(),
    decreases b.len() - i,
{
    if i < b.len() && b[i] != 42 {
        lemma_nfs_bounds(b, i + 1);
    }
}

proof fn lemma_nfs_ext(x: Seq<u8>, y: Seq<u8>, i: int)
    requires
        0 <= i <= x.len(),
    ensures
        next_frame_start(x, i) < x.len() ==> next_frame_start(x + y, i) == next_frame_start(x, i),
        next_frame_start(x, i) == x.len() ==> next_frame_start(x + y, i) == next_frame_start(
            x + y,
            x.len() as int,
        ),
    decreases x.len() - i,
{
    if i < x.len() {
        assert((x + y)[i] == x[i]);
        if x[i] != 42 {
            lemma_nfs_ext(x, y, i + 1);
        }
    }
}

/// Reading the bus's bytes in two parts, keeping what the first part left
/// for the second, finds the same deliveries in the same order, passes over
/// the same number of malformed stretches, and leaves the same rest, as
/// reading them all at once.
#[verifier::rlimit(40)]
pub proof fn lemma_drain_in_parts(x: Seq<u8>, y: Seq<u8>)
    ensures
        drain(x).0 + drain(drain(x).1 + y).0 == drain(x + y).0,
        drain(drain(x).1 + y).1 == drain(x + y).1,
        malformed_count(x) + malformed_count(drain(x).1 + y) == malformed_count(x + y),
    decreases x.len(),
{
    lemma_frame_ext(x, y);
    let xy = x + y;
    match frame_shape(x) {
        FrameShape::Incomplete => {
            assert(Seq::<(Seq<char>, Seq<char>)>::empty() + drain(xy).0 =~= drain(xy).0);
        },
        FrameShape::NonMsg(e) => {
            assert(xy.skip(e) =~= x.skip(e) + y);
            lemma_drain_in_parts(x.skip(e), y);
        },
        FrameShape::Msg(s1, l1, s2, l2, e) => {
            assert(xy.skip(e) =~= x.skip(e) + y);
            assert(xy.subrange(s1, s1 + l1) =~= x.subrange(s1, s1 + l1));
            assert(xy.subrange(s2, s2 + l2) =~= x.subrange(s2, s2 + l2));
            lemma_drain_in_parts(x.skip(e), y);
            let ch = x.subrange(s1, s1 + l1);
            let pl = x.subrange(s2, s2 + l2);
            if valid_utf8(ch) && valid_utf8(pl) {
                let d = seq![(decode_utf8(ch), decode_utf8(pl))];
                let rest = drain(x.skip(e));
                assert(d + rest.0 + drain(rest.1 + y).0 =~= d + (rest.0 + drain(rest.1 + y).0));
            }
        },
        FrameShape::Malformed => {
            assert(x.len() > 0);
            lemma_nfs_bounds(x, 1);
            lemma_nfs_ext(x, y, 1);
            let k = next_frame_start(x, 1);
            if k < x.len() {
                assert(xy.skip(k) =~= x.skip(k) + y);
                lemma_drain_in_parts(x.skip(k), y);
            } else {
                assert(Seq::<(Seq<char>, Seq<char>)>::empty() + drain(xy).0 =~= drain(xy).0);
            }
        },
    }
}

/// A queue's own channel decodes, under the router's namespace and with a
/// cache that holds the queue's hashtag, to the queue's timeline. With the
/// contract of `receive`, every delivery on that channel therefore reaches
/// the queue, once and in bus order.
pub proof fn lemma_own_channel_routes_home(r: Receiver, i: int)
    requires
        r.wf(),
        0 <= i < r.queues@.len(),
        r.queues@[i].timeline.0 is Hashtag ==> r.cache.ids().contains_key(r.queues@[i].tag@)
            && r.cache.ids()[r.queues@[i].tag@] == r.queues@[i].timeline.0->Hashtag_0,
    ensures
        decode(split(r.queues@[i].channel@), ns_view(r.namespace), r.cache.ids()) is Ok,
        decode(split(r.queues@[i].channel@), ns_view(r.namespace), r.cache.ids())->Ok_0
            == r.queues@[i].timeline,
{
    let q = r.queues@[i];
    assert(queue_ok(q, ns_view(r.namespace)));
    lemma_wire_round_trip(q.timeline, q.tag@, ns_view(r.namespace), r.cache.ids());
}

proof fn lemma_count_exists(qs: Seq<MsgQueue>, t: Timeline)
    ensures
        count_tl(qs, t) > 0 <==> exists|k: int| 0 <= k < qs.len() && #[trigger] qs[k].timeline == t,
    decreases qs.len(),
{
    if qs.len() > 0 {
        let p = qs.drop_last();
        lemma_count_exists(p, t);
        if exists|k: int| 0 <= k < p.len() && #[trigger] p[k].timeline == t {
            let k = choose|k: int| 0 <= k < p.len() && #[trigger] p[k].timeline == t;
            assert(qs[k] == p[k]);
        }
        if exists|k: int| 0 <= k < qs.len() && #[trigger] qs[k].timeline == t {
            let k = choose|k: int| 0 <= k < qs.len() && #[trigger] qs[k].timeline == t;
            if k < p.len() {
                assert(p[k] == qs[k]);
            }
        }
    }
}

/// Among the queues `qs`, exactly those of timeline `t` follow channel `c`.
pub open spec fn channel_names_timeline(qs: Seq<MsgQueue>, t: Timeline, c: Seq<char>) -> bool {
    forall|k: int| 0 <= k < qs.len() ==> (#[trigger] qs[k].channel@ == c <==> qs[k].timeline == t)
}

/// Registering a new client on `tl` subscribes the bus exactly when `tl`
/// had no client before, and unsubscribes nothing; this holds whenever the
/// channel of `tl` is followed by the queues of `tl` alone.
pub proof fn lemma_subscribe_iff_first_client(
    a: Receiver,
    b: Receiver,
    id: u128,
    tl: Timeline,
    cmds: Seq<BusCommand>,
)
    requires
        !a.has_client(id),
        b.queues@.len() >= 1,
        b.queues@.drop_last() == without(a.queues@, id),
        b.queues@.last().timeline == tl,
        channel_names_timeline(a.queues@, tl, b.queues@.last().channel@),
        bus_after(a.channels(), cmds) == b.channels(),
        all_effective(a.channels(), cmds),
        cmds.len() <= 2,
        forall|k: int| 0 <= k < cmds.len() && #[trigger] cmds[k].cmd == RedisCmd::Unsubscribe ==> k == 0
            && a.has_client(id),
        forall|k: int| 0 <= k < cmds.len() && #[trigger] cmds[k].cmd == RedisCmd::Subscribe ==> k
            == cmds.len() - 1 && cmds[k].channel@ == b.queues@.last().channel@,
    ensures
        (exists|k: int| 0 <= k < cmds.len() && #[trigger] cmds[k].cmd == RedisCmd::Subscribe) <==> a.refcount(tl)
            == 0,
        forall|k: int| 0 <= k < cmds.len() ==> #[trigger] cmds[k].cmd != RedisCmd::Unsubscribe,
{
    let qs = a.queues@;
    let c = b.queues@.last().channel@;
    assert(b.queues@.drop_last() == qs);
    lemma_count_exists(qs, tl);
    assert(b.channels().contains(c)) by {
        assert(b.queues@[b.queues@.len() - 1].channel@ == c);
    }
    assert forall|k: int| 0 <= k < cmds.len() implies #[trigger] cmds[k].cmd != RedisCmd::Unsubscribe by {}
    if cmds.len() == 0 {
        assert(b.channels() == a.channels());
        let k = choose|k: int| 0 <= k < qs.len() && qs[k].channel@ == c;
        assert(qs[k].timeline == tl);
    } else {
        assert(cmds.len() == 1) by {
            if cmds.len() == 2 {
                assert(cmds[0].cmd != RedisCmd::Unsubscribe);
                assert(cmds[0].cmd == RedisCmd::Subscribe);
            }
        }
        assert(cmds[0].cmd == RedisCmd::Subscribe) by {
            assert(cmds[0].cmd != RedisCmd::Unsubscribe);
        }
        assert(cmds.drop_last() =~= Seq::<BusCommand>::empty());
        assert(!a.channels().contains(c));
        assert forall|k: int| 0 <= k < qs.len() implies #[trigger] qs[k].timeline != tl by {
            if qs[k].timeline == tl {
                assert(qs[k].channel@ == c);
            }
        }
    }
}

/// Unregistering a client unsubscribes the bus exactly when its timeline
/// is left with no client; this holds whenever that timeline's channel is
/// followed by the queues of that timeline alone.
pub proof fn lemma_unsubscribe_iff_last_client(a: Receiver, b: Receiver, id: u128, r: Option<BusCommand>)
    requires
        a.has_client(id),
        b.queues@ == without(a.queues@, id),
        channel_names_timeline(
            a.queues@,
            a.queues@[index_of(a.queues@, id)].timeline,
            a.queues@[index_of(a.queues@, id)].channel@,
        ),
        bus_after(a.channels(), opt_seq(r)) == b.channels(),
        all_effective(a.channels(), opt_seq(r)),
        r is Some ==> r->0.cmd == RedisCmd::Unsubscribe,
    ensures
        r is Some <==> b.refcount(a.queues@[index_of(a.queues@, id)].timeline) == 0,
{
    let qs = a.queues@;
    let i = index_of(qs, id);
    let q = qs[i];
    let rs = b.queues@;
    lemma_remove_keeps(qs, i);
    lemma_live_after_remove(qs, i);
    lemma_count_exists(rs, q.timeline);
    assert(a.channels().contains(q.channel@)) by {
        assert(qs[i].channel@ == q.channel@);
    }
    match r {
        Some(cmd) => {
            let s = opt_seq(r);
            assert(s.drop_last() =~= Seq::<BusCommand>::empty());
            assert(b.channels() == a.channels().remove(cmd.channel@));
            assert(cmd.channel@ == q.channel@) by {
                if cmd.channel@ != q.channel@ {
                    assert(a.channels().contains(cmd.channel@));
                    assert(live_channels(rs).contains(cmd.channel@));
                }
            }
            assert forall|k: int| 0 <= k < rs.len() implies #[trigger] rs[k].timeline != q.timeline by {
                let j = if k < i { k } else { k + 1 };
                assert(rs[k] == qs[j]);
                if rs[k].timeline == q.timeline {
                    assert(qs[j].channel@ == q.channel@);
                    assert(live_channels(rs).contains(q.channel@));
                }
            }
        },
        None => {
            assert(opt_seq(r) =~= Seq::<BusCommand>::empty());
            assert(b.channels() == a.channels());
            assert(live_channels(rs).contains(q.channel@));
            let k = choose|k: int| 0 <= k < rs.len() && rs[k].channel@ == q.channel@;
            let j = if k < i { k } else { k + 1 };
            assert(rs[k] == qs[j]);
            assert(rs[k].timeline == q.timeline);
        },
    }
}

/// The payloads of a run of deliveries, in order.
pub open spec fn payloads(ds: Seq<(Seq<char>, Seq<char>)>) -> Seq<Seq<char>> {
    Seq::new(ds.len(), |k: int| ds[k].1)
}

/// When the bus delivers events on a queue's own channel, the queue gets
/// each of them exactly once, in the order the bus delivered them.
pub proof fn lemma_queue_gets_its_channel_in_order(
    r: Receiver,
    i: int,
    ds: Seq<(Seq<char>, Seq<char>)>,
)
    requires
        r.wf(),
        0 <= i < r.queues@.len(),
        r.queues@[i].timeline.0 is Hashtag ==> r.cache.ids().contains_key(r.queues@[i].tag@)
            && r.cache.ids()[r.queues@[i].tag@] == r.queues@[i].timeline.0->Hashtag_0,
        forall|k: int| 0 <= k < ds.len() ==> (#[trigger] ds[k]).0 == r.queues@[i].channel@
            && is_event_text(ds[k].1),
    ensures
        routed(ds, r.queues@[i].timeline, ns_view(r.namespace), r.cache.ids()) == payloads(ds),
    decreases ds.len(),
{
    lemma_own_channel_routes_home(r, i);
    if ds.len() > 0 {
        let p = ds.drop_last();
        assert forall|k: int| 0 <= k < p.len() implies (#[trigger] p[k]).0 == r.queues@[i].channel@
            && is_event_text(p[k].1) by {
            assert(p[k] == ds[k]);
        }
        lemma_queue_gets_its_channel_in_order(r, i, p);
        assert(ds.last() == ds[ds.len() - 1]);
        assert(payloads(ds) =~= payloads(p) + seq![ds.last().1]);
    }
}

} // verus!
