//! Latest-value frame distributor: one producer publishes whole JPEG
//! frames, each subscriber holds a cursor (the generation it last
//! observed) and polls for anything newer. Only the most recent frame is
//! ever held; a slow subscriber skips frames, it never sees an old one.
use vstd::prelude::*;

verus! {

/// The shared single-slot broadcast state: the most recently published
/// frame and its generation number. Generation 0 means "no frame yet";
/// every publish increments it, so generations are never reused. The
/// full sequence of frames ever published is carried as ghost state, so
/// contracts can say which frame a given generation stood for.
pub struct Distributor {
    frame: Vec<u8>,
    generation: u64,
    history: Ghost<Seq<Seq<u8>>>,
}

/// A per-consumer cursor: the generation of the last frame this
/// subscriber observed (0 when it has observed none).
pub struct Subscription {
    last_seen: u64,
}

impl Distributor {
    /// The frames published so far, first to last. The current
    /// generation is this sequence's length; the held frame is its last
    /// element.
    pub closed spec fn history(&self) -> Seq<Seq<u8>> {
        self.history@
    }

    pub closed spec fn frame(&self) -> Seq<u8> {
        self.frame@
    }

    pub closed spec fn generation(&self) -> u64 {
        self.generation
    }

    /// The generation counts the publishes, and the slot holds the most
    /// recently published frame. Established by `new`, preserved by
    /// every operation.
    pub open spec fn wf(&self) -> bool {
        &&& self.generation() == self.history().len()
        &&& self.generation() > 0 ==> self.frame() == self.history().last()
    }

    /// A fresh distributor: nothing published yet.
    pub fn new() -> (d: Distributor)
        ensures
            d.wf(),
            d.generation() == 0,
            d.history() == Seq::<Seq<u8>>::empty(),
    {
        Distributor { frame: Vec::new(), generation: 0, history: Ghost(Seq::empty()) }
    }

    /// Replace the held frame and advance the generation. Never waits on
    /// any consumer; succeeds whether or not anyone is subscribed.
    pub fn publish(&mut self, frame: Vec<u8>)
        requires
            old(self).wf(),
            old(self).generation() < u64::MAX,
        ensures
            final(self).wf(),
            final(self).generation() == old(self).generation() + 1,
            final(self).history() == old(self).history().push(frame@),
            final(self).frame() == frame@,
    {
        self.frame = frame;
        self.generation = self.generation + 1;
        proof {
            self.history@ = self.history@.push(self.frame@);
        }
    }

    /// How many publishes the generation counter can still take before
    /// it would overflow. Callers check this against `publish`'s
    /// precondition.
    pub fn generation_left(&self) -> (r: u64)
        ensures
            r == u64::MAX - self.generation(),
    {
        u64::MAX - self.generation
    }

    /// A new subscription starts at the current generation: it observes
    /// the next published frame at the earliest, never one already held
    /// when it joined.
    pub fn subscribe(&self) -> (s: Subscription)
        ensures
            s.last_seen() == self.generation(),
            s.attached(self),
    {
        Subscription { last_seen: self.generation }
    }

    /// Hand out the current frame if this subscription has not observed
    /// it yet, advancing the cursor to the current generation; report
    /// `None` when nothing newer than the cursor exists. A subscriber
    /// therefore observes strictly increasing generations, may skip
    /// some, and never sees a frame older than one it has seen.
    pub fn poll(&self, sub: &mut Subscription) -> (r: Option<Vec<u8>>)
        requires
            self.wf(),
            old(sub).attached(self),
        ensures
            final(sub).attached(self),
            match r {
                Some(f) => {
                    &&& old(sub).last_seen() < self.generation()
                    &&& f@ == self.frame()
                    &&& f@ == self.history().last()
                    &&& final(sub).last_seen() == self.generation()
                },
                None => {
                    &&& old(sub).last_seen() == self.generation()
                    &&& final(sub).last_seen() == old(sub).last_seen()
                },
            },
    {
        if sub.last_seen != self.generation {
            sub.last_seen = self.generation;
            Some(copy_bytes(&self.frame))
        } else {
            None
        }
    }
}

impl Subscription {
    pub closed spec fn last_seen(&self) -> u64 {
        self.last_seen
    }

    /// A subscription cursor never runs ahead of the distributor it was
    /// created from: publishes only raise the generation, polls only
    /// raise the cursor up to the generation.
    pub open spec fn attached(&self, d: &Distributor) -> bool {
        self.last_seen() <= d.generation()
    }

    /// Whether this cursor is still attached to `d`. Callers check this
    /// against `poll`'s precondition.
    pub fn is_attached(&self, d: &Distributor) -> (r: bool)
        ensures
            r == self.attached(d),
    {
        self.last_seen <= d.generation
    }
}

/// A fresh buffer with the same contents: each consumer gets its own
/// copy of the published frame, so no frame is ever shared mutably.
fn copy_bytes(v: &Vec<u8>) -> (r: Vec<u8>)
    ensures
        r@ == v@,
{
    let mut r: Vec<u8> = Vec::new();
    let mut i: usize = 0;
    while i < v.len()
        invariant
            i <= v.len(),
            r@ == v@.subrange(0, i as int),
        decreases v.len() - i,
    {
        r.push(v[i]);
        i = i + 1;
        proof {
            assert(r@ =~= v@.subrange(0, i as int));
        }
    }
    proof {
        assert(v@.subrange(0, v@.len() as int) =~= v@);
    }
    r
}

/// One observation a subscriber makes through `poll`: the generation it
/// caught and the frame that generation carried.
pub ghost struct Observation {
    pub generation: int,
    pub frame: Seq<u8>,
}

/// The abstract joint state of one producer and one subscriber: every
/// frame published so far, the subscriber's cursor, and everything the
/// subscriber has observed. `Distributor::publish` and
/// `Distributor::poll` perform exactly `session_publish` and
/// `session_poll` on this abstraction: `published` is the distributor's
/// `history`, `cursor` the subscription's `last_seen`.
#[verifier::ext_equal]
pub ghost struct Session {
    pub published: Seq<Seq<u8>>,
    pub cursor: int,
    pub observed: Seq<Observation>,
}

/// A session begun before the first publish: a subscription created on a
/// fresh distributor.
pub open spec fn session_init() -> Session {
    Session { published: Seq::empty(), cursor: 0, observed: Seq::empty() }
}

/// The producer publishes one more frame.
pub open spec fn session_publish(t: Session, f: Seq<u8>) -> Session {
    Session { published: t.published.push(f), ..t }
}

/// The subscriber polls once: if anything newer than its cursor exists
/// it observes the latest generation and its frame, else nothing
/// changes.
pub open spec fn session_poll(t: Session) -> Session {
    if t.cursor < t.published.len() {
        Session {
            cursor: t.published.len() as int,
            observed: t.observed.push(
                Observation {
                    generation: t.published.len() as int,
                    frame: t.published.last(),
                },
            ),
            ..t
        }
    } else {
        t
    }
}

/// An interleaving of publishes and polls: `Some(f)` publishes `f`,
/// `None` polls.
pub open spec fn session_run(evts: Seq<Option<Seq<u8>>>) -> Session
    decreases evts.len(),
{
    if evts.len() == 0 {
        session_init()
    } else {
        let t = session_run(evts.drop_last());
        match evts.last() {
            Some(f) => session_publish(t, f),
            None => session_poll(t),
        }
    }
}

/// What always holds of a session, however publishes and polls
/// interleave: the subscriber's observations carry strictly increasing
/// generations; each observation is genuine (its generation was
/// published, and its frame is the one published at that generation);
/// and the cursor stands at the last observed generation.
pub open spec fn session_sound(t: Session) -> bool {
    &&& 0 <= t.cursor <= t.published.len()
    &&& (forall|i: int|
        0 <= i < t.observed.len() ==> 1 <= #[trigger] t.observed[i].generation
            <= t.published.len())
    &&& (forall|i: int|
        0 <= i < t.observed.len() ==> #[trigger] t.observed[i].frame == t.published[
            t.observed[i].generation - 1
        ])
    &&& (forall|i: int, j: int|
        0 <= i < j < t.observed.len() ==> #[trigger] t.observed[i].generation < #[trigger] t.observed[j].generation)
    &&& t.cursor == if t.observed.len() == 0 {
        0
    } else {
        t.observed.last().generation
    }
}

/// Every interleaving of publishes and polls keeps the session sound.
pub proof fn lemma_session_sound(evts: Seq<Option<Seq<u8>>>)
    ensures
        session_sound(session_run(evts)),
    decreases evts.len(),
{
    if evts.len() > 0 {
        lemma_session_sound(evts.drop_last());
        let t = session_run(evts.drop_last());
        match evts.last() {
            Some(f) => {
                assert(forall|i: int|
                    0 <= i < t.observed.len() ==> #[trigger] t.observed[i].frame
                        == t.published.push(f)[t.observed[i].generation - 1]);
            },
            None => {},
        }
    }
}

/// A subscriber that keeps polling until nothing new remains ends on the
/// last published frame: if frames were published and the session ends
/// with a poll, the last observation is the latest generation and
/// carries the frame published last, and all observations are strictly
/// increasing and genuine.
pub proof fn lemma_subscriber_sees_latest(evts: Seq<Option<Seq<u8>>>)
    requires
        evts.len() > 0,
        evts.last() is None,
        session_run(evts).published.len() > 0,
    ensures
        session_sound(session_run(evts)),
        session_run(evts).observed.len() > 0,
        session_run(evts).observed.last().generation == session_run(evts).published.len(),
        session_run(evts).observed.last().frame == session_run(evts).published.last(),
{
    lemma_session_sound(evts.drop_last());
    lemma_session_sound(evts);
    let t = session_run(evts.drop_last());
    assert(session_run(evts) == session_poll(t));
    if t.cursor < t.published.len() {
    } else {
        assert(t.observed.len() > 0);
    }
}

} // verus!
