//! Bounded, multi-subscriber broadcast channel with drop-oldest backpressure.
//!
//! One producer publishes reading sets; each subscriber consumes them in
//! publish order through its own cursor. The channel retains at most
//! `CHANNEL_CAPACITY` messages: publishing into a full channel evicts the
//! oldest retained message, and a subscriber that has fallen behind the
//! oldest retained message is told how many messages it missed before it can
//! read again. Publishing never waits for a subscriber.

use vstd::prelude::*;

use crate::sensors::{NUM_SENSORS, Reading, ReadingSet};

verus! {

/// Number of message slots the deployment's channel retains.
pub const CHANNEL_CAPACITY: usize = 4;

/// Number of subscribers the deployment's channel serves.
pub const SUBSCRIBERS: usize = 1;

/// The channel at the specification level: the full history of published
/// messages, one cursor per subscriber (how many messages that subscriber
/// has consumed or skipped), and the retention capacity.
pub struct ChannelView {
    pub hist: Seq<Seq<Reading>>,
    pub cursors: Seq<nat>,
    pub cap: nat,
}

impl ChannelView {
    /// Cursors never point past the history, the capacity is positive, and
    /// only complete reading sets enter the history.
    pub open spec fn wf(self) -> bool {
        &&& self.cap > 0
        &&& forall|s: int| 0 <= s < self.cursors.len() ==> #[trigger] self.cursors[s] <= self.hist.len()
        &&& forall|k: int| 0 <= k < self.hist.len() ==> (#[trigger] self.hist[k]).len() == NUM_SENSORS
    }

    /// How many of the published messages are still retained.
    pub open spec fn retained(self) -> nat {
        if self.hist.len() <= self.cap {
            self.hist.len()
        } else {
            self.cap
        }
    }

    /// Index into the history of the oldest retained message.
    pub open spec fn oldest(self) -> nat {
        (self.hist.len() - self.retained()) as nat
    }

    /// Subscriber `s` has missed messages: its cursor lies before the oldest
    /// retained message.
    pub open spec fn has_lagged(self, s: int) -> bool {
        self.cursors[s] < self.oldest()
    }

    /// How many messages subscriber `s` missed.
    pub open spec fn lag_of(self, s: int) -> nat {
        (self.oldest() - self.cursors[s]) as nat
    }

    /// Subscriber `s` has a message ready.
    pub open spec fn has_message(self, s: int) -> bool {
        !self.has_lagged(s) && self.cursors[s] < self.hist.len()
    }

    /// The message subscriber `s` receives next.
    pub open spec fn next_message(self, s: int) -> Seq<Reading> {
        self.hist[self.cursors[s] as int]
    }

    /// The channel after a publish: the message enters the history; cursors
    /// do not move (eviction shows up as lag, not as cursor movement).
    pub open spec fn after_publish(self, m: Seq<Reading>) -> ChannelView {
        ChannelView { hist: self.hist.push(m), ..self }
    }

    /// The channel after subscriber `s` calls receive: a lagged cursor jumps
    /// to the oldest retained message, a ready cursor advances by one, and a
    /// caught-up cursor stays.
    pub open spec fn after_receive(self, s: int) -> ChannelView {
        if self.has_lagged(s) {
            ChannelView { cursors: self.cursors.update(s, self.oldest()), ..self }
        } else if self.has_message(s) {
            ChannelView { cursors: self.cursors.update(s, (self.cursors[s] + 1) as nat), ..self }
        } else {
            self
        }
    }
}

/// What a subscriber's receive yields: the next message, a notice of how
/// many messages were missed, or nothing yet (the caller then suspends and
/// retries once a publish has happened).
pub enum RecvOutcome {
    Message(ReadingSet),
    Lagged(u64),
    Empty,
}

/// The bounded broadcast channel connecting the sampling task to the
/// reporting task(s).
pub struct TempChannel {
    buffer: Vec<ReadingSet>,
    published: u64,
    cursors: Vec<u64>,
    capacity: usize,
    hist: Ghost<Seq<Seq<Reading>>>,
}

impl View for TempChannel {
    type V = ChannelView;

    closed spec fn view(&self) -> ChannelView {
        ChannelView {
            hist: self.hist@,
            cursors: self.cursors@.map_values(|c: u64| c as nat),
            cap: self.capacity as nat,
        }
    }
}

impl TempChannel {
    /// The buffer is exactly the retained suffix of the history, oldest
    /// first, and the counters agree with the history.
    pub closed spec fn inv(self) -> bool {
        &&& self@.wf()
        &&& self.published == self.hist@.len()
        &&& self.buffer@.len() == self@.retained()
        &&& forall|k: int|
            0 <= k < self.buffer@.len() ==> (#[trigger] self.buffer@[k])@ == self.hist@[
                self@.oldest() + k
            ]
    }

    /// An intact channel is well formed at the specification level; in
    /// particular every message of its history is a complete reading set.
    pub proof fn lemma_inv_wf(&self)
        requires
            self.inv(),
        ensures
            self@.wf(),
    {
    }

    /// A fresh channel: nothing published, every subscriber caught up.
    pub fn new(capacity: usize, subscribers: usize) -> (r: TempChannel)
        requires
            capacity >= 1,
        ensures
            r.inv(),
            r@.hist.len() == 0,
            r@.cap == capacity,
            r@.cursors.len() == subscribers,
            forall|s: int| 0 <= s < subscribers ==> r@.cursors[s] == 0,
    {
        let mut cursors: Vec<u64> = Vec::new();
        let mut s: usize = 0;
        while s < subscribers
            invariant
                0 <= s <= subscribers,
                cursors@.len() == s,
                forall|k: int| 0 <= k < s ==> cursors@[k] == 0,
            decreases subscribers - s,
        {
            cursors.push(0u64);
            s = s + 1;
        }
        let r = TempChannel {
            buffer: Vec::new(),
            published: 0,
            cursors,
            capacity,
            hist: Ghost(Seq::empty()),
        };
        proof {
            assert(r@.cursors =~= cursors@.map_values(|c: u64| c as nat));
        }
        r
    }

    /// Publishes a complete reading set.
    ///
    /// Never waits: when all slots are taken, the oldest retained message is
    /// evicted to make room, and subscribers that had not consumed it will
    /// see the loss as lag on their next receive.
    pub fn publish(&mut self, msg: ReadingSet)
        requires
            old(self).inv(),
            msg.wf(),
            old(self)@.hist.len() < u64::MAX,
        ensures
            final(self).inv(),
            final(self)@ == old(self)@.after_publish(msg@),
    {
        if self.buffer.len() == self.capacity {
            self.buffer.remove(0);
        }
        self.buffer.push(msg);
        self.published = self.published + 1;
        self.hist = Ghost(self.hist@.push(msg@));
        proof {
            assert(self@.hist =~= old(self)@.hist.push(msg@));
            assert(self@.cursors =~= old(self)@.cursors);
        }
    }

    /// One receive step for subscriber `sub`.
    ///
    /// Reports lag exactly when the subscriber's cursor lies before the
    /// oldest retained message, in which case the cursor jumps there;
    /// otherwise delivers the next message in publish order, or `Empty` when
    /// the subscriber has consumed everything published so far.
    pub fn try_receive(&mut self, sub: usize) -> (r: RecvOutcome)
        requires
            old(self).inv(),
            sub < old(self)@.cursors.len(),
        ensures
            final(self).inv(),
            final(self)@ == old(self)@.after_receive(sub as int),
            old(self)@.has_lagged(sub as int) ==> (r matches RecvOutcome::Lagged(n) && n
                == old(self)@.lag_of(sub as int)),
            old(self)@.has_message(sub as int) ==> (r matches RecvOutcome::Message(m) && m@
                == old(self)@.next_message(sub as int)),
            !old(self)@.has_lagged(sub as int) && !old(self)@.has_message(sub as int) ==> r
                is Empty && final(self)@ == old(self)@,
    {
        let oldest: u64 = self.published - (self.buffer.len() as u64);
        let cur: u64 = self.cursors[sub];
        if cur < oldest {
            let lag = oldest - cur;
            self.cursors[sub] = oldest;
            proof {
                assert(self@.cursors =~= old(self)@.cursors.update(
                    sub as int,
                    old(self)@.oldest(),
                ));
            }
            RecvOutcome::Lagged(lag)
        } else if cur < self.published {
            let idx: usize = (cur - oldest) as usize;
            let msg = self.buffer[idx].duplicate();
            self.cursors[sub] = cur + 1;
            proof {
                assert(self@.cursors =~= old(self)@.cursors.update(
                    sub as int,
                    (old(self)@.cursors[sub as int] + 1) as nat,
                ));
            }
            RecvOutcome::Message(msg)
        } else {
            proof {
                assert(self@.cursors =~= old(self)@.cursors);
            }
            RecvOutcome::Empty
        }
    }
}


/// The channel after a whole run of publishes, in order.
pub open spec fn publish_all(v: ChannelView, msgs: Seq<Seq<Reading>>) -> ChannelView
    decreases msgs.len(),
{
    if msgs.len() == 0 {
        v
    } else {
        publish_all(v, msgs.drop_last()).after_publish(msgs.last())
    }
}

/// Publishing appends to the history and moves nothing else.
pub proof fn lemma_publish_all_shape(v: ChannelView, msgs: Seq<Seq<Reading>>)
    ensures
        publish_all(v, msgs).hist == v.hist + msgs,
        publish_all(v, msgs).cursors == v.cursors,
        publish_all(v, msgs).cap == v.cap,
    decreases msgs.len(),
{
    if msgs.len() == 0 {
        assert(v.hist + msgs =~= v.hist);
    } else {
        lemma_publish_all_shape(v, msgs.drop_last());
        assert((v.hist + msgs.drop_last()).push(msgs.last()) =~= v.hist + msgs);
    }
}

/// Overrun is reported, never silently absorbed: when `k` messages are
/// published and none consumed, and `k` exceeds the capacity `c`, the
/// subscriber's next receive reports a lag of exactly `k - c` (so at least
/// `k - c`), and its cursor jumps to the oldest retained message.
pub proof fn lemma_overrun(v: ChannelView, msgs: Seq<Seq<Reading>>, sub: int)
    requires
        0 <= sub < v.cursors.len(),
        v.cursors[sub] == v.hist.len(),
        msgs.len() > v.cap,
    ensures
        publish_all(v, msgs).has_lagged(sub),
        publish_all(v, msgs).lag_of(sub) == msgs.len() - v.cap,
        publish_all(v, msgs).after_receive(sub).cursors[sub] == publish_all(v, msgs).oldest(),
{
    lemma_publish_all_shape(v, msgs);
    let v1 = publish_all(v, msgs);
    assert(v1.hist.len() == v.hist.len() + msgs.len());
    assert(v1.oldest() == v1.hist.len() - v1.cap);
}

/// The channel after `n` consecutive receives by subscriber `s`.
pub open spec fn receive_n(v: ChannelView, s: int, n: nat) -> ChannelView
    decreases n,
{
    if n == 0 {
        v
    } else {
        receive_n(v, s, (n - 1) as nat).after_receive(s)
    }
}

/// After the overrun of `lemma_overrun` is reported, draining yields exactly
/// the `c` most recent messages, in publish order: the `j`-th receive after
/// the lag notice delivers `msgs[msgs.len() - c + j]`.
pub proof fn lemma_drain_in_order(v: ChannelView, msgs: Seq<Seq<Reading>>, sub: int, j: nat)
    requires
        0 <= sub < v.cursors.len(),
        v.cursors[sub] == v.hist.len(),
        msgs.len() > v.cap,
        j < v.cap,
    ensures
        receive_n(publish_all(v, msgs).after_receive(sub), sub, j).has_message(sub),
        receive_n(publish_all(v, msgs).after_receive(sub), sub, j).next_message(sub) == msgs[
            msgs.len() - v.cap + j
        ],
{
    lemma_publish_all_shape(v, msgs);
    let v1 = publish_all(v, msgs);
    let v2 = v1.after_receive(sub);
    lemma_overrun(v, msgs, sub);
    lemma_receive_steps(v2, sub, j);
    assert(receive_n(v2, sub, j).cursors[sub] == v1.oldest() + j);
    assert(v1.hist[(v1.oldest() + j) as int] == msgs[msgs.len() - v.cap + j]);
}

/// While a subscriber stays within the retained window, each receive
/// advances its cursor by exactly one and changes nothing else.
proof fn lemma_receive_steps(v: ChannelView, sub: int, n: nat)
    requires
        0 <= sub < v.cursors.len(),
        v.cursors[sub] >= v.oldest(),
        v.cursors[sub] + n <= v.hist.len(),
    ensures
        receive_n(v, sub, n).hist == v.hist,
        receive_n(v, sub, n).cap == v.cap,
        receive_n(v, sub, n).cursors.len() == v.cursors.len(),
        receive_n(v, sub, n).cursors[sub] == v.cursors[sub] + n,
        forall|t: int|
            0 <= t < v.cursors.len() && t != sub ==> receive_n(v, sub, n).cursors[t]
                == v.cursors[t],
    decreases n,
{
    if n > 0 {
        lemma_receive_steps(v, sub, (n - 1) as nat);
        let w = receive_n(v, sub, (n - 1) as nat);
        assert(w.oldest() == v.oldest());
        assert(!w.has_lagged(sub));
        assert(w.has_message(sub));
    }
}


/// Only complete reading sets are ever in flight: every message in a
/// well-formed channel's history -- published and retained alike -- holds
/// exactly one reading per sensor, because `publish` accepts only complete
/// sets. A cycle in which any sensor exhausted its retries produces no set
/// at all, so nothing of it reaches the channel.
pub proof fn lemma_published_complete(v: ChannelView, k: int)
    requires
        v.wf(),
        0 <= k < v.hist.len(),
    ensures
        v.hist[k].len() == NUM_SENSORS,
{
}

} // verus!
