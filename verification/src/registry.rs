//! Connections and their subscriptions.
//!
//! The registry is synchronous on purpose: it is called from whatever thread produces
//! data and never awaits. Delivery to each connection is a non-blocking `try_send` into
//! that connection's bounded queue; a full queue drops the frame, counts it, and
//! lengthens that connection's streak of drops. The slow client pays, never the
//! publisher and never the other clients.
//!
//! The registry's state is given by its view, a [`RegistryView`]: every open
//! connection by id, with its subject, the set of channels it is subscribed to, and
//! the number of frames dropped for it since one last got through. A per-channel index
//! of subscribers is kept in step with it, so that publishing is a map lookup rather
//! than a scan of every connection.

use vstd::prelude::*;
use vstd::hash_map::StringHashMap;
use vstd::std_specs::hash::{spec_hash_keys_iter, spec_keys_iter};
use vstd::std_specs::iter::IteratorSpec;

use std::collections::{HashMap, HashSet};
use std::sync::atomic::AtomicU64;
use std::sync::Arc;

use tokio::sync::mpsc::Sender;

use crate::outbox::{try_send, Outbox};
use crate::protocol::{frame_text, resync_text, str_texts, texts, Frame, RawJson, ServerMessage};

verus! {

broadcast use vstd::std_specs::hash::group_hash_axioms;

#[verifier::external_type_specification]
#[verifier::external_body]
#[verifier::reject_recursive_types(T)]
pub struct ExSender<T>(Sender<T>);

/// Opaque connection identifier.
#[derive(Debug, Clone, Copy, PartialEq, Eq, Hash, Structural)]
pub struct ConnectionId(u64);

impl View for ConnectionId {
    type V = u64;

    closed spec fn view(&self) -> u64 {
        self.0
    }
}

/// What became of a frame handed to one connection's queue.
#[derive(Debug, Clone, Copy, PartialEq, Eq, Structural)]
pub enum Delivery {
    /// The queue took it.
    Queued,
    /// The queue was full; the frame was dropped for this connection.
    Full,
    /// The connection's receiving side is gone.
    Closed,
}

/// `HashSet::<u64>::clone`: a set with the same ids.
#[verifier::external_body]
fn clone_ids(ids: &HashSet<u64>) -> (copy: HashSet<u64>)
    ensures
        copy@ == ids@,
{
    ids.clone()
}

/// Counters, all monotonic except `connections_active`.
#[derive(Debug)]
pub struct Metrics {
    /// Connections currently open.
    pub connections_active: AtomicU64,
    /// Connections opened since start.
    pub connections_total: AtomicU64,
    /// Connections closed because the client stopped answering heartbeats.
    pub heartbeat_timeouts: AtomicU64,
    /// Connections refused because the server was full.
    pub refused_full: AtomicU64,
    /// Frames handed to a connection's queue.
    pub frames_sent: AtomicU64,
    /// Frames dropped because a connection's queue was full.
    pub frames_dropped: AtomicU64,
}

impl Metrics {
    /// All counters at zero.
    pub fn new() -> Metrics {
        Metrics {
            connections_active: AtomicU64::new(0),
            connections_total: AtomicU64::new(0),
            heartbeat_timeouts: AtomicU64::new(0),
            refused_full: AtomicU64::new(0),
            frames_sent: AtomicU64::new(0),
            frames_dropped: AtomicU64::new(0),
        }
    }

    /// Adds `n` to `counter`. Counters are shared between threads and read with
    /// relaxed ordering; nothing is stated of their values.
    pub fn add(counter: &AtomicU64, n: u64) {
        counter.fetch_add(n, std::sync::atomic::Ordering::Relaxed);
    }

    fn take_one(counter: &AtomicU64) {
        counter.fetch_sub(1, std::sync::atomic::Ordering::Relaxed);
    }
}

impl Default for Metrics {
    fn default() -> Metrics {
        Metrics::new()
    }
}

/// A connection as the registry sees it.
pub struct ConnView {
    /// Who the connection authenticated as.
    pub subject: Seq<char>,
    /// The channels it receives.
    pub channels: Set<Seq<char>>,
    /// Frames dropped for it since the last one that got through.
    pub streak: u64,
    /// Every frame handed to its queue, in order, whether or not the queue took it: the
    /// record its [`Outbox`](crate::outbox::Outbox) keeps, which only a send extends.
    pub offered: Seq<Seq<char>>,
}

/// The registry's state.
pub struct RegistryView {
    /// Every open connection, by id.
    pub conns: Map<u64, ConnView>,
    /// The id the next connection gets.
    pub next_id: u64,
}

/// The connections subscribed to `channel`.
pub open spec fn subscribers_of(conns: Map<u64, ConnView>, channel: Seq<char>) -> Set<u64> {
    conns.dom().filter(|id: u64| conns[id].channels.contains(channel))
}

/// `c` after `frame` was handed to its queue and met `d`: the frame joins what was
/// offered to it; the streak is cleared by a frame that got through, lengthened (up
/// to `u64::MAX`) by one that was dropped, and left alone when the connection's
/// receiver is gone.
pub open spec fn after_delivery(c: ConnView, frame: Seq<char>, d: Delivery) -> ConnView {
    let offered = c.offered.push(frame);
    match d {
        Delivery::Queued => ConnView { streak: 0, offered, ..c },
        Delivery::Full => ConnView {
            streak: if c.streak == u64::MAX {
                c.streak
            } else {
                (c.streak + 1) as u64
            },
            offered,
            ..c
        },
        Delivery::Closed => ConnView { offered, ..c },
    }
}

/// The connections after `frame` was handed once to each `id` in `outcomes` and met
/// `outcomes[id]`.
pub open spec fn after_deliveries(
    conns: Map<u64, ConnView>,
    frame: Seq<char>,
    outcomes: Map<u64, Delivery>,
) -> Map<u64, ConnView> {
    Map::new(
        |id: u64| conns.contains_key(id),
        |id: u64|
            if outcomes.contains_key(id) {
                after_delivery(conns[id], frame, outcomes[id])
            } else {
                conns[id]
            },
    )
}

/// How many of `outcomes` got through.
pub open spec fn queued_count(outcomes: Map<u64, Delivery>) -> nat {
    outcomes.dom().filter(|id: u64| outcomes[id] == Delivery::Queued).len()
}

/// Handing frames out changes no connection's subscriptions, so no channel's
/// subscribers.
pub proof fn law_deliveries_keep_subscribers(
    conns: Map<u64, ConnView>,
    frame: Seq<char>,
    o: Map<u64, Delivery>,
    channel: Seq<char>,
)
    ensures
        subscribers_of(after_deliveries(conns, frame, o), channel) == subscribers_of(
            conns,
            channel,
        ),
{
    assert(subscribers_of(after_deliveries(conns, frame, o), channel) =~= subscribers_of(
        conns,
        channel,
    ));
}

/// The connections after `frame` was published on each of `channels` in turn, the
/// `i`-th publish meeting `outcomes[i]`.
pub open spec fn after_publishes(
    conns: Map<u64, ConnView>,
    frame: Seq<char>,
    outcomes: Seq<Map<u64, Delivery>>,
) -> Map<u64, ConnView>
    decreases outcomes.len(),
{
    if outcomes.len() == 0 {
        conns
    } else {
        after_deliveries(
            after_publishes(conns, frame, outcomes.drop_last()),
            frame,
            outcomes.last(),
        )
    }
}

/// Publishing changes no connection's subscriptions.
pub proof fn law_publishes_keep_subscribers(
    conns: Map<u64, ConnView>,
    frame: Seq<char>,
    outcomes: Seq<Map<u64, Delivery>>,
    channel: Seq<char>,
)
    ensures
        subscribers_of(after_publishes(conns, frame, outcomes), channel) == subscribers_of(
            conns,
            channel,
        ),
    decreases outcomes.len(),
{
    if outcomes.len() > 0 {
        law_publishes_keep_subscribers(conns, frame, outcomes.drop_last(), channel);
        law_deliveries_keep_subscribers(
            after_publishes(conns, frame, outcomes.drop_last()),
            frame,
            outcomes.last(),
            channel,
        );
    }
}

/// How many deliveries got through over several publishes.
pub open spec fn queued_total(outcomes: Seq<Map<u64, Delivery>>) -> nat
    decreases outcomes.len(),
{
    if outcomes.len() == 0 {
        0
    } else {
        queued_total(outcomes.drop_last()) + queued_count(outcomes.last())
    }
}

/// `n` capped at `usize::MAX`.
pub open spec fn capped(n: nat) -> usize {
    if n <= usize::MAX {
        n as usize
    } else {
        usize::MAX
    }
}

/// The per-channel index agrees with the subscriptions: a connection is listed under a
/// channel exactly when it is subscribed to it, and no channel is listed with nobody.
pub open spec fn index_ok(
    subs: Map<u64, Set<Seq<char>>>,
    index: Map<Seq<char>, HashSet<u64>>,
) -> bool {
    &&& forall|ch: Seq<char>, id: u64|
        index.contains_key(ch) && #[trigger] index[ch]@.contains(id) ==> subs.contains_key(id)
            && subs[id].contains(ch)
    &&& forall|ch: Seq<char>, id: u64|
        subs.contains_key(id) && #[trigger] subs[id].contains(ch) ==> index.contains_key(ch)
            && index[ch]@.contains(id)
    &&& forall|ch: Seq<char>| #[trigger] index.contains_key(ch) ==> !index[ch]@.is_empty()
}

/// What subscribing a connection that holds `held` to the requested channels `req`
/// does, with at most `max` channels per connection: the channels newly added, in
/// request order, and the ones refused because the connection was at its limit.
/// A channel already held, or requested twice, is neither.
pub open spec fn subscribe_plan(held: Set<Seq<char>>, req: Seq<Seq<char>>, max: nat) -> (Seq<
    Seq<char>,
>, Seq<Seq<char>>)
    decreases req.len(),
{
    if req.len() == 0 {
        (Seq::empty(), Seq::empty())
    } else {
        let (added, over) = subscribe_plan(held, req.drop_last(), max);
        let ch = req.last();
        if held.contains(ch) || added.contains(ch) {
            (added, over)
        } else if held.len() + added.len() >= max {
            (added, over.push(ch))
        } else {
            (added.push(ch), over)
        }
    }
}

/// The channels that unsubscribing a connection that holds `held` from `req` removes,
/// in request order. Channels not held are ignored.
pub open spec fn unsubscribe_plan(held: Set<Seq<char>>, req: Seq<Seq<char>>) -> Seq<Seq<char>>
    decreases req.len(),
{
    if req.len() == 0 {
        Seq::empty()
    } else {
        let removed = unsubscribe_plan(held, req.drop_last());
        let ch = req.last();
        if held.contains(ch) && !removed.contains(ch) {
            removed.push(ch)
        } else {
            removed
        }
    }
}

proof fn lemma_remove_no_dup<A>(s: Seq<A>, p: int)
    requires
        s.no_duplicates(),
        0 <= p < s.len(),
    ensures
        s.remove(p).no_duplicates(),
        s.remove(p).to_set() == s.to_set().remove(s[p]),
{
    let r = s.remove(p);
    assert forall|a: int, b: int| 0 <= a < b < r.len() implies r[a] != r[b] by {
        let a2 = if a < p { a } else { a + 1 };
        let b2 = if b < p { b } else { b + 1 };
        assert(r[a] == s[a2] && r[b] == s[b2]);
    }
    assert forall|x: A| r.to_set().contains(x) <==> s.to_set().remove(s[p]).contains(x) by {
        if r.contains(x) {
            let k = choose|k: int| 0 <= k < r.len() && #[trigger] r[k] == x;
            let k2 = if k < p { k } else { k + 1 };
            assert(s[k2] == x);
            assert(s.contains(x));
            assert(k2 != p);
        }
        if s.contains(x) && x != s[p] {
            let k = choose|k: int| 0 <= k < s.len() && #[trigger] s[k] == x;
            assert(k != p);
            let k2 = if k < p { k } else { k - 1 };
            assert(r[k2] == x);
            assert(r.contains(x));
        }
    }
    assert(r.to_set() =~= s.to_set().remove(s[p]));
}

/// Whether `v` holds a string equal to `s`.
pub(crate) fn holds(v: &Vec<String>, s: &String) -> (r: bool)
    ensures
        r == texts(v@).contains(s@),
{
    let n = v.len();
    let mut i: usize = 0;
    while i < n
        invariant
            n == v@.len(),
            i <= n,
            forall|k: int| 0 <= k < i ==> texts(v@)[k] != s@,
        decreases n - i,
    {
        if v[i] == *s {
            assert(texts(v@)[i as int] == s@);
            return true;
        }
        i = i + 1;
    }
    false
}

/// Where `v` holds a string equal to `s`, if it does.
fn position(v: &Vec<String>, s: &String) -> (r: Option<usize>)
    ensures
        match r {
            Some(p) => p < v@.len() && texts(v@)[p as int] == s@,
            None => !texts(v@).contains(s@),
        },
{
    let n = v.len();
    let mut i: usize = 0;
    while i < n
        invariant
            n == v@.len(),
            i <= n,
            forall|k: int| 0 <= k < i ==> texts(v@)[k] != s@,
        decreases n - i,
    {
        if v[i] == *s {
            return Some(i);
        }
        i = i + 1;
    }
    None
}

struct Connection {
    subject: String,
    subscriptions: Vec<String>,
    outbox: Outbox,
    streak: u64,
}

spec fn channels_of(c: Connection) -> Set<Seq<char>> {
    texts(c.subscriptions@).to_set()
}

spec fn conn_view(c: Connection) -> ConnView {
    ConnView { subject: c.subject@, channels: channels_of(c), streak: c.streak, offered: c.outbox.handed() }
}

/// The registry's tables: connections by id, and subscribers by channel.
struct Table {
    connections: HashMap<u64, Connection>,
    by_channel: StringHashMap<HashSet<u64>>,
    next_id: u64,
    metrics: Arc<Metrics>,
}

impl View for Table {
    type V = RegistryView;

    closed spec fn view(&self) -> RegistryView {
        RegistryView {
            conns: Map::new(
                |id: u64| self.connections@.contains_key(id),
                |id: u64| conn_view(self.connections@[id]),
            ),
            next_id: self.next_id,
        }
    }
}

proof fn lemma_index_add_channel(
    subs: Map<u64, Set<Seq<char>>>,
    index: Map<Seq<char>, HashSet<u64>>,
    new_index: Map<Seq<char>, HashSet<u64>>,
    id: u64,
    ch: Seq<char>,
)
    requires
        index_ok(subs, index),
        subs.contains_key(id),
        new_index == index.insert(ch, new_index[ch]),
        new_index[ch]@ == (if index.contains_key(ch) {
            index[ch]@
        } else {
            Set::empty()
        }).insert(id),
    ensures
        index_ok(subs.insert(id, subs[id].insert(ch)), new_index),
{
    let s2 = subs.insert(id, subs[id].insert(ch));
    assert forall|c: Seq<char>, i: u64|
        new_index.contains_key(c) && #[trigger] new_index[c]@.contains(i) implies s2.contains_key(i)
        && s2[i].contains(c) by {
        if c != ch {
            assert(index[c]@.contains(i));
        } else if i != id {
            assert(index[c]@.contains(i));
        }
    }
    assert forall|c: Seq<char>, i: u64|
        s2.contains_key(i) && #[trigger] s2[i].contains(c) implies new_index.contains_key(c)
        && new_index[c]@.contains(i) by {
        if i != id || c != ch {
            assert(subs[i].contains(c));
        }
    }
    assert forall|c: Seq<char>| #[trigger] new_index.contains_key(c) implies !new_index[c]@.is_empty() by {
        if c == ch {
            assert(new_index[c]@.contains(id));
        } else {
            assert(index.contains_key(c));
        }
    }
}

proof fn lemma_index_remove_channel(
    subs: Map<u64, Set<Seq<char>>>,
    index: Map<Seq<char>, HashSet<u64>>,
    new_index: Map<Seq<char>, HashSet<u64>>,
    id: u64,
    ch: Seq<char>,
)
    requires
        index_ok(subs, index),
        subs.contains_key(id),
        index.contains_key(ch) ==> (if index[ch]@.remove(id).is_empty() {
            new_index == index.remove(ch)
        } else {
            &&& new_index == index.insert(ch, new_index[ch])
            &&& new_index[ch]@ == index[ch]@.remove(id)
        }),
        !index.contains_key(ch) ==> new_index == index,
    ensures
        index_ok(subs.insert(id, subs[id].remove(ch)), new_index),
{
    let s2 = subs.insert(id, subs[id].remove(ch));
    assert forall|c: Seq<char>, i: u64|
        new_index.contains_key(c) && #[trigger] new_index[c]@.contains(i) implies s2.contains_key(i)
        && s2[i].contains(c) by {
        assert(index.contains_key(c));
        assert(index[c]@.contains(i));
    }
    assert forall|c: Seq<char>, i: u64|
        s2.contains_key(i) && #[trigger] s2[i].contains(c) implies new_index.contains_key(c)
        && new_index[c]@.contains(i) by {
        assert(subs[i].contains(c));
        assert(index[c]@.contains(i));
        if c == ch {
            assert(index[ch]@.remove(id).contains(i));
        }
    }
    assert forall|c: Seq<char>| #[trigger] new_index.contains_key(c) implies !new_index[c]@.is_empty() by {
        assert(index.contains_key(c));
    }
}

proof fn lemma_index_new_connection(
    subs: Map<u64, Set<Seq<char>>>,
    index: Map<Seq<char>, HashSet<u64>>,
    id: u64,
)
    requires
        index_ok(subs, index),
        !subs.contains_key(id),
    ensures
        index_ok(subs.insert(id, Set::empty()), index),
{
    let s2 = subs.insert(id, Set::empty());
    assert forall|c: Seq<char>, i: u64|
        index.contains_key(c) && #[trigger] index[c]@.contains(i) implies s2.contains_key(i)
        && s2[i].contains(c) by {
    }
    assert forall|c: Seq<char>, i: u64|
        s2.contains_key(i) && #[trigger] s2[i].contains(c) implies index.contains_key(c)
        && index[c]@.contains(i) by {
        assert(i != id);
        assert(subs[i].contains(c));
    }
}

proof fn lemma_index_drop_connection(
    subs: Map<u64, Set<Seq<char>>>,
    index: Map<Seq<char>, HashSet<u64>>,
    id: u64,
)
    requires
        index_ok(subs, index),
        subs.contains_key(id),
        subs[id] == Set::<Seq<char>>::empty(),
    ensures
        index_ok(subs.remove(id), index),
{
    let s2 = subs.remove(id);
    assert forall|c: Seq<char>, i: u64|
        index.contains_key(c) && #[trigger] index[c]@.contains(i) implies s2.contains_key(i)
        && s2[i].contains(c) by {
        assert(subs[i].contains(c));
    }
    assert forall|c: Seq<char>, i: u64|
        s2.contains_key(i) && #[trigger] s2[i].contains(c) implies index.contains_key(c)
        && index[c]@.contains(i) by {
        assert(subs[i].contains(c));
    }
}

/// Adds `id` to the subscribers listed under `ch`.
fn index_add(index: &mut StringHashMap<HashSet<u64>>, ch: &str, id: u64)
    ensures
        final(index)@ == old(index)@.insert(ch@, final(index)@[ch@]),
        final(index)@[ch@]@ == (if old(index)@.contains_key(ch@) {
            old(index)@[ch@]@
        } else {
            Set::empty()
        }).insert(id),
{
    let mut ids = match index.get(ch) {
        Some(s) => clone_ids(s),
        None => HashSet::new(),
    };
    ids.insert(id);
    index.insert(String::from_str(ch), ids);
}

/// Takes `id` off the subscribers listed under `ch`, and the entry off the index
/// once nobody is left under it.
fn index_remove(index: &mut StringHashMap<HashSet<u64>>, ch: &str, id: u64)
    ensures
        old(index)@.contains_key(ch@) ==> (if old(index)@[ch@]@.remove(id).is_empty() {
            final(index)@ == old(index)@.remove(ch@)
        } else {
            &&& final(index)@ == old(index)@.insert(ch@, final(index)@[ch@])
            &&& final(index)@[ch@]@ == old(index)@[ch@]@.remove(id)
        }),
        !old(index)@.contains_key(ch@) ==> final(index)@ == old(index)@,
{
    match index.get(ch) {
        Some(s) => {
            let mut ids = clone_ids(s);
            ids.remove(&id);
            if ids.is_empty() {
                index.remove(ch);
            } else {
                index.insert(String::from_str(ch), ids);
            }
        },
        None => {},
    }
}

proof fn lemma_queued_count_insert(o: Map<u64, Delivery>, id: u64, d: Delivery)
    requires
        o.dom().finite(),
        !o.contains_key(id),
    ensures
        queued_count(o.insert(id, d)) == queued_count(o) + if d == Delivery::Queued {
            1nat
        } else {
            0nat
        },
{
    let o2 = o.insert(id, d);
    let f1 = o.dom().filter(|k: u64| o[k] == Delivery::Queued);
    let f2 = o2.dom().filter(|k: u64| o2[k] == Delivery::Queued);
    o.dom().lemma_len_filter(|k: u64| o[k] == Delivery::Queued);
    if d == Delivery::Queued {
        assert(f2 =~= f1.insert(id));
        assert(!f1.contains(id));
    } else {
        assert(f2 =~= f1);
    }
}

proof fn lemma_after_deliveries_insert(
    conns: Map<u64, ConnView>,
    frame: Seq<char>,
    o: Map<u64, Delivery>,
    id: u64,
    d: Delivery,
)
    requires
        conns.contains_key(id),
        !o.contains_key(id),
    ensures
        after_deliveries(conns, frame, o.insert(id, d)) == after_deliveries(conns, frame, o).insert(
            id,
            after_delivery(conns[id], frame, d),
        ),
{
    assert(after_deliveries(conns, frame, o.insert(id, d)) =~= after_deliveries(conns, frame, o).insert(
        id,
        after_delivery(conns[id], frame, d),
    ));
}

/// Hands `frame` to connection `key`'s queue, counts the outcome and updates the
/// connection's streak.
fn deliver_to(
    conns: &mut HashMap<u64, Connection>,
    metrics: &Metrics,
    key: u64,
    frame: &Frame,
) -> (d: Delivery)
    requires
        old(conns)@.contains_key(key),
    ensures
        final(conns)@ == old(conns)@.insert(key, final(conns)@[key]),
        final(conns)@[key].subscriptions == old(conns)@[key].subscriptions,
        conn_view(final(conns)@[key]) == after_delivery(conn_view(old(conns)@[key]), frame@, d),
{
    let mut conn = conns.remove(&key).unwrap();
    let d = try_send(&mut conn.outbox, frame.clone());
    match d {
        Delivery::Queued => {
            conn.streak = 0;
            Metrics::add(&metrics.frames_sent, 1);
        },
        Delivery::Full => {
            if conn.streak < u64::MAX {
                conn.streak = conn.streak + 1;
            }
            Metrics::add(&metrics.frames_dropped, 1);
        },
        Delivery::Closed => {},
    }
    conns.insert(key, conn);
    proof {
        assert(conns@ =~= old(conns)@.insert(key, conns@[key]));
    }
    d
}

impl Table {
    /// The subscriptions of each connection, by id.
    spec fn subs_map(&self) -> Map<u64, Set<Seq<char>>> {
        Map::new(
            |id: u64| self.connections@.contains_key(id),
            |id: u64| channels_of(self.connections@[id]),
        )
    }

    /// The registry's internal invariant: ids below `next_id`, no channel held twice by
    /// one connection, and the per-channel index in step with the subscriptions.
    pub closed spec fn wf(&self) -> bool {
        &&& forall|id: u64| #[trigger]
            self.connections@.contains_key(id) ==> id < self.next_id && texts(
                self.connections@[id].subscriptions@,
            ).no_duplicates()
        &&& index_ok(self.subs_map(), self.by_channel@)
    }

    /// An empty registry whose connections will report to `metrics`.
    pub fn new(metrics: Arc<Metrics>) -> (registry: Table)
        ensures
            registry.wf(),
            registry@.conns == Map::<u64, ConnView>::empty(),
            registry@.next_id == 1,
            registry.metrics_of() == metrics,
            registry@.conns.dom().finite(),
    {
        let r = Table {
            connections: HashMap::new(),
            by_channel: StringHashMap::new(),
            next_id: 1,
            metrics,
        };
        assert(r.subs_map() =~= Map::<u64, Set<Seq<char>>>::empty());
        assert(r@.conns =~= Map::<u64, ConnView>::empty());
        r
    }

    /// The counters this registry reports to.
    pub closed spec fn metrics_of(&self) -> Arc<Metrics> {
        self.metrics
    }

    /// Counters: the ones the registry was made with.
    pub fn metrics(&self) -> (m: &Arc<Metrics>)
        ensures
            *m == self.metrics_of(),
    {
        &self.metrics
    }

    /// Whether another connection can be given a fresh id.
    pub open spec fn has_free_id_spec(&self) -> bool {
        self@.next_id < u64::MAX
    }

    /// Whether another connection can be given a fresh id. Ids are never reused, so
    /// this is false only after `u64::MAX - 1` connections.
    pub fn has_free_id(&self) -> (r: bool)
        ensures
            r == self.has_free_id_spec(),
    {
        self.next_id < u64::MAX
    }

    /// Registers a connection for `subject` whose frames go to `tx`. It starts with no
    /// subscriptions and an empty streak, under a fresh id.
    pub fn add(&mut self, subject: String, tx: Sender<Frame>) -> (id: ConnectionId)
        requires
            old(self).wf(),
            old(self).has_free_id_spec(),
        ensures
            final(self).metrics_of() == old(self).metrics_of(),
            final(self).wf(),
            id@ == old(self)@.next_id,
            !old(self)@.conns.contains_key(id@),
            final(self)@.conns == old(self)@.conns.insert(
                id@,
                ConnView {
                    subject: subject@,
                    channels: Set::empty(),
                    streak: 0,
                    offered: Seq::empty(),
                },
            ),
            final(self)@.next_id == old(self)@.next_id + 1,
            final(self)@.conns.dom().finite(),
            final(self)@.conns.len() == old(self)@.conns.len() + 1,
    {
        proof {
            assert(self@.conns.dom() =~= self.connections@.dom());
        }
        let ghost old_subs = self.subs_map();
        let id = self.next_id;
        assert(!self.connections@.contains_key(id));
        let conn = Connection {
            subject,
            subscriptions: Vec::new(),
            outbox: Outbox::new(tx),
            streak: 0,
        };
        assert(channels_of(conn) =~= Set::<Seq<char>>::empty()) by {
            assert(texts(conn.subscriptions@) =~= Seq::<Seq<char>>::empty());
        }
        self.connections.insert(id, conn);
        self.next_id = id + 1;
        Metrics::add(&self.metrics.connections_total, 1);
        Metrics::add(&self.metrics.connections_active, 1);
        proof {
            lemma_index_new_connection(old_subs, self.by_channel@, id);
            assert(self.subs_map() =~= old_subs.insert(id, Set::empty()));
            assert(texts(conn.subscriptions@) =~= Seq::<Seq<char>>::empty());
            assert(self@.conns =~= old(self)@.conns.insert(
                id,
                ConnView {
                    subject: conn.subject@,
                    channels: Set::empty(),
                    streak: 0,
                    offered: Seq::empty(),
                },
            ));
        }
        ConnectionId(id)
    }

    /// Removes connection `id` and its subscriptions. Nothing happens if it is not open.
    pub fn remove(&mut self, id: ConnectionId)
        requires
            old(self).wf(),
        ensures
            final(self).metrics_of() == old(self).metrics_of(),
            final(self).wf(),
            final(self)@.conns == old(self)@.conns.remove(id@),
            final(self)@.next_id == old(self)@.next_id,
            final(self)@.conns.dom().finite(),
            final(self)@.conns.len() == if old(self)@.conns.contains_key(id@) {
                old(self)@.conns.len() - 1
            } else {
                old(self)@.conns.len() as int
            },
    {
        proof {
            assert(self@.conns.dom() =~= self.connections@.dom());
        }
        let ghost old_subs = self.subs_map();
        let key = id.0;
        match self.connections.remove(&key) {
            Some(conn) => {
                let ghost t = texts(conn.subscriptions@);
                let ghost conns_after = self.connections@;
                let n = conn.subscriptions.len();
                let mut i: usize = 0;
                assert(t.subrange(0, n as int) =~= t);
                assert(old_subs.insert(key, t.subrange(0, n as int).to_set()) =~= old_subs);
                while i < n
                    invariant
                        self.metrics == old(self).metrics,
                        n == conn.subscriptions@.len(),
                        t == texts(conn.subscriptions@),
                        self.connections@ == conns_after,
                        self.next_id == old(self).next_id,
                        t.no_duplicates(),
                        i <= n,
                        old_subs.contains_key(key),
                        index_ok(
                            old_subs.insert(key, t.subrange(i as int, n as int).to_set()),
                            self.by_channel@,
                        ),
                    decreases n - i,
                {
                    let ghost rest = t.subrange(i as int, n as int).to_set();
                    let ghost next = t.subrange(i + 1, n as int).to_set();
                    let ghost ch = t[i as int];
                    let ghost rs = t.subrange(i as int, n as int);
                    let ghost ns = t.subrange(i + 1, n as int);
                    assert(next =~= rest.remove(ch)) by {
                        assert forall|c: Seq<char>| next.contains(c) implies rest.contains(c) && c
                            != ch by {
                            assert(ns.contains(c));
                            let k = choose|k: int| 0 <= k < ns.len() && #[trigger] ns[k] == c;
                            assert(rs[k + 1] == c);
                            assert(t[i + 1 + k] == c);
                        }
                        assert forall|c: Seq<char>| rest.contains(c) && c != ch implies next.contains(c) by {
                            assert(rs.contains(c));
                            let k = choose|k: int| 0 <= k < rs.len() && #[trigger] rs[k] == c;
                            assert(k != 0);
                            assert(ns[k - 1] == c);
                        }
                    }
                    assert(t.subrange(i as int, n as int)[0] == ch);
                    let ghost before = self.by_channel@;
                    index_remove(&mut self.by_channel, conn.subscriptions[i].as_str(), key);
                    proof {
                        lemma_index_remove_channel(
                            old_subs.insert(key, rest),
                            before,
                            self.by_channel@,
                            key,
                            ch,
                        );
                        assert(old_subs.insert(key, rest).insert(key, rest.remove(ch)) =~= old_subs.insert(key, next));
                    }
                    i = i + 1;
                }
                proof {
                    assert(t.subrange(n as int, n as int).to_set() =~= Set::<Seq<char>>::empty());
                    lemma_index_drop_connection(old_subs.insert(key, Set::empty()), self.by_channel@, key);
                    assert(old_subs.insert(key, Set::empty()).remove(key) =~= self.subs_map());
                    assert(self@.conns =~= old(self)@.conns.remove(key));
                    assert forall|i: u64| #[trigger] self.connections@.contains_key(i) implies i
                        < self.next_id && texts(self.connections@[i].subscriptions@).no_duplicates() by {
                        assert(old(self).connections@.contains_key(i));
                    }
                }
                assert(index_ok(self.subs_map(), self.by_channel@));
                assert(self.wf());
                Metrics::take_one(&self.metrics.connections_active);
            },
            None => {
                assert(self.connections@ =~= old(self).connections@);
                assert(self@.conns =~= old(self)@.conns.remove(key));
            },
        }
    }

    /// Adds subscriptions for connection `id`, respecting `max` per connection.
    /// Returns the channels newly added and the ones refused for the limit, as
    /// [`subscribe_plan`] says. Nothing changes if `id` is not open.
    pub fn subscribe(&mut self, id: ConnectionId, channels: Vec<String>, max: usize) -> (r: (
        Vec<String>,
        Vec<String>,
    ))
        requires
            old(self).wf(),
        ensures
            final(self).metrics_of() == old(self).metrics_of(),
            final(self).wf(),
            final(self)@.next_id == old(self)@.next_id,
            !old(self)@.conns.contains_key(id@) ==> r.0@.len() == 0 && r.1@.len() == 0
                && final(self)@.conns == old(self)@.conns,
            old(self)@.conns.contains_key(id@) ==> {
                let c = old(self)@.conns[id@];
                let plan = subscribe_plan(c.channels, texts(channels@), max as nat);
                &&& texts(r.0@) == plan.0
                &&& texts(r.1@) == plan.1
                &&& final(self)@.conns == old(self)@.conns.insert(
                    id@,
                    ConnView { channels: c.channels + plan.0.to_set(), ..c },
                )
            },
    {
        let ghost old_subs = self.subs_map();
        let key = id.0;
        let mut added: Vec<String> = Vec::new();
        let mut over: Vec<String> = Vec::new();
        match self.connections.remove(&key) {
            None => {
                assert(self.connections@ =~= old(self).connections@);
                assert(self@.conns =~= old(self)@.conns);
                (added, over)
            },
            Some(mut conn) => {
                let ghost c0 = conn;
                let ghost t0 = texts(conn.subscriptions@);
                let ghost held = t0.to_set();
                let ghost req = texts(channels@);
                let ghost conns_after = self.connections@;
                proof {
                    assert(old(self).connections@.contains_key(key));
                    assert(conn == old(self).connections@[key]);
                    assert(old(self).wf());
                    assert(texts(old(self).connections@[key].subscriptions@).no_duplicates());
                    assert(t0.no_duplicates());
                    t0.unique_seq_to_set();
                    assert(t0 + texts(added@) =~= t0);
                }
                let n = channels.len();
                let mut i: usize = 0;
                while i < n
                    invariant
                        self.metrics == old(self).metrics,
                        n == channels@.len(),
                        req == texts(channels@),
                        i <= n,
                        t0.no_duplicates(),
                        held == t0.to_set(),
                        held.len() == t0.len(),
                        texts(conn.subscriptions@) == t0 + texts(added@),
                        (t0 + texts(added@)).no_duplicates(),
                        (texts(added@), texts(over@)) == subscribe_plan(
                            held,
                            req.subrange(0, i as int),
                            max as nat,
                        ),
                        conn.subject == c0.subject,
                        conn.outbox == c0.outbox,
                        conn.streak == c0.streak,
                        self.connections@ == conns_after,
                    decreases n - i,
                {
                    let ghost a = texts(added@);
                    let ghost o = texts(over@);
                    let ghost ch = req[i as int];
                    assert(req.subrange(0, i + 1).drop_last() =~= req.subrange(0, i as int));
                    assert(req.subrange(0, i + 1).last() == ch);
                    assert((t0 + a).contains(ch) <==> held.contains(ch) || a.contains(ch)) by {
                        if (t0 + a).contains(ch) {
                            let k = choose|k: int| 0 <= k < (t0 + a).len() && #[trigger] (t0 + a)[k] == ch;
                            if k < t0.len() {
                                assert(t0[k] == ch);
                                assert(t0.contains(ch));
                            } else {
                                assert(a[k - t0.len()] == ch);
                            }
                        }
                        if a.contains(ch) {
                            let k = choose|k: int| 0 <= k < a.len() && #[trigger] a[k] == ch;
                            assert((t0 + a)[t0.len() + k] == ch);
                        }
                        if t0.contains(ch) {
                            let k = choose|k: int| 0 <= k < t0.len() && #[trigger] t0[k] == ch;
                            assert((t0 + a)[k] == ch);
                        }
                    }
                    if holds(&conn.subscriptions, &channels[i]) {
                    } else if conn.subscriptions.len() >= max {
                        over.push(channels[i].clone());
                        assert(texts(over@) =~= o.push(ch));
                    } else {
                        conn.subscriptions.push(channels[i].clone());
                        added.push(channels[i].clone());
                        assert(texts(added@) =~= a.push(ch));
                        assert(texts(conn.subscriptions@) =~= (t0 + a).push(ch));
                        assert((t0 + a).push(ch) =~= t0 + a.push(ch));
                    }
                    i = i + 1;
                }
                let ghost a = texts(added@);
                assert(req.subrange(0, n as int) =~= req);
                self.connections.insert(key, conn);
                let ghost conns_final = self.connections@;
                proof {
                    assert((t0 + a).to_set() =~= held + a.to_set()) by {
                        assert forall|x: Seq<char>| (t0 + a).contains(x) <==> (held + a.to_set()).contains(x) by {
                            if (t0 + a).contains(x) {
                                let k = choose|k: int| 0 <= k < (t0 + a).len() && #[trigger] (t0 + a)[k] == x;
                                if k < t0.len() {
                                    assert(t0[k] == x);
                                    assert(t0.contains(x));
                                } else {
                                    assert(a[k - t0.len()] == x);
                                    assert(a.contains(x));
                                }
                            }
                            if t0.contains(x) {
                                let k = choose|k: int| 0 <= k < t0.len() && #[trigger] t0[k] == x;
                                assert((t0 + a)[k] == x);
                            }
                            if a.contains(x) {
                                let k = choose|k: int| 0 <= k < a.len() && #[trigger] a[k] == x;
                                assert((t0 + a)[t0.len() + k] == x);
                            }
                        }
                    }
                }
                let m = added.len();
                let mut j: usize = 0;
                assert(a.subrange(0, 0).to_set() =~= Set::<Seq<char>>::empty());
                assert(held + Set::<Seq<char>>::empty() =~= held);
                assert(old_subs[key] == held);
                assert(old_subs.insert(key, held + a.subrange(0, 0).to_set()) =~= old_subs);
                while j < m
                    invariant
                        self.metrics == old(self).metrics,
                        m == added@.len(),
                        a == texts(added@),
                        self.connections@ == conns_final,
                        self.next_id == old(self).next_id,
                        j <= m,
                        old_subs.contains_key(key),
                        index_ok(
                            old_subs.insert(key, held + a.subrange(0, j as int).to_set()),
                            self.by_channel@,
                        ),
                    decreases m - j,
                {
                    let ghost before = self.by_channel@;
                    let ghost cur = held + a.subrange(0, j as int).to_set();
                    index_add(&mut self.by_channel, added[j].as_str(), key);
                    proof {
                        lemma_index_add_channel(
                            old_subs.insert(key, cur),
                            before,
                            self.by_channel@,
                            key,
                            a[j as int],
                        );
                        assert(a.subrange(0, j + 1) =~= a.subrange(0, j as int).push(a[j as int]));
                        a.subrange(0, j as int).lemma_push_to_set_commute(a[j as int]);
                        assert(cur.insert(a[j as int]) =~= held + a.subrange(0, j + 1).to_set());
                        assert(old_subs.insert(key, cur).insert(key, cur.insert(a[j as int]))
                            =~= old_subs.insert(key, held + a.subrange(0, j + 1).to_set()));
                    }
                    j = j + 1;
                }
                proof {
                    assert(a.subrange(0, m as int) =~= a);
                    assert(self.subs_map() =~= old_subs.insert(key, held + a.to_set()));
                    assert forall|k: u64| #[trigger] self.connections@.contains_key(k) implies k
                        < self.next_id && texts(self.connections@[k].subscriptions@).no_duplicates() by {
                        assert(old(self).connections@.contains_key(k));
                    }
                    assert(self@.conns =~= old(self)@.conns.insert(
                        key,
                        ConnView { channels: held + a.to_set(), ..old(self)@.conns[key] },
                    ));
                }
                (added, over)
            },
        }
    }

    /// Removes subscriptions of connection `id`. Returns the channels removed, as
    /// [`unsubscribe_plan`] says. Channels it does not hold are ignored, and nothing
    /// changes if `id` is not open.
    pub fn unsubscribe(&mut self, id: ConnectionId, channels: Vec<String>) -> (removed: Vec<String>)
        requires
            old(self).wf(),
        ensures
            final(self).metrics_of() == old(self).metrics_of(),
            final(self).wf(),
            final(self)@.next_id == old(self)@.next_id,
            !old(self)@.conns.contains_key(id@) ==> removed@.len() == 0 && final(self)@.conns
                == old(self)@.conns,
            old(self)@.conns.contains_key(id@) ==> {
                let c = old(self)@.conns[id@];
                let plan = unsubscribe_plan(c.channels, texts(channels@));
                &&& texts(removed@) == plan
                &&& final(self)@.conns == old(self)@.conns.insert(
                    id@,
                    ConnView { channels: c.channels.difference(plan.to_set()), ..c },
                )
            },
    {
        let ghost old_subs = self.subs_map();
        let key = id.0;
        let mut removed: Vec<String> = Vec::new();
        match self.connections.remove(&key) {
            None => {
                assert(self.connections@ =~= old(self).connections@);
                assert(self@.conns =~= old(self)@.conns);
                removed
            },
            Some(mut conn) => {
                let ghost c0 = conn;
                let ghost t0 = texts(conn.subscriptions@);
                let ghost held = t0.to_set();
                let ghost req = texts(channels@);
                let ghost conns_after = self.connections@;
                proof {
                    assert(old(self).connections@.contains_key(key));
                    assert(conn == old(self).connections@[key]);
                    assert(held.difference(texts(removed@).to_set()) =~= held);
                }
                let n = channels.len();
                let mut i: usize = 0;
                while i < n
                    invariant
                        self.metrics == old(self).metrics,
                        n == channels@.len(),
                        req == texts(channels@),
                        i <= n,
                        texts(conn.subscriptions@).no_duplicates(),
                        texts(conn.subscriptions@).to_set() == held.difference(
                            texts(removed@).to_set(),
                        ),
                        texts(removed@) == unsubscribe_plan(held, req.subrange(0, i as int)),
                        conn.subject == c0.subject,
                        conn.outbox == c0.outbox,
                        conn.streak == c0.streak,
                        self.connections@ == conns_after,
                    decreases n - i,
                {
                    let ghost r = texts(removed@);
                    let ghost ch = req[i as int];
                    let ghost t = texts(conn.subscriptions@);
                    assert(req.subrange(0, i + 1).drop_last() =~= req.subrange(0, i as int));
                    assert(req.subrange(0, i + 1).last() == ch);
                    match position(&conn.subscriptions, &channels[i]) {
                        Some(p) => {
                            proof {
                                lemma_remove_no_dup(t, p as int);
                                assert(t.contains(ch));
                                assert(t.to_set().contains(ch));
                            }
                            conn.subscriptions.remove(p);
                            removed.push(channels[i].clone());
                            proof {
                                assert(texts(conn.subscriptions@) =~= t.remove(p as int));
                                assert(texts(removed@) =~= r.push(ch));
                                r.lemma_push_to_set_commute(ch);
                                assert(held.difference(r.push(ch).to_set()) =~= held.difference(
                                    r.to_set(),
                                ).remove(ch));
                            }
                        },
                        None => {
                            assert(!t.to_set().contains(ch));
                        },
                    }
                    i = i + 1;
                }
                let ghost r = texts(removed@);
                assert(req.subrange(0, n as int) =~= req);
                self.connections.insert(key, conn);
                let ghost conns_final = self.connections@;
                let m = removed.len();
                let mut j: usize = 0;
                assert(held.difference(r.subrange(0, 0).to_set()) =~= held);
                assert(old_subs[key] == held);
                assert(old_subs.insert(key, held) =~= old_subs);
                while j < m
                    invariant
                        self.metrics == old(self).metrics,
                        m == removed@.len(),
                        r == texts(removed@),
                        self.connections@ == conns_final,
                        self.next_id == old(self).next_id,
                        j <= m,
                        old_subs.contains_key(key),
                        index_ok(
                            old_subs.insert(key, held.difference(r.subrange(0, j as int).to_set())),
                            self.by_channel@,
                        ),
                    decreases m - j,
                {
                    let ghost before = self.by_channel@;
                    let ghost cur = held.difference(r.subrange(0, j as int).to_set());
                    index_remove(&mut self.by_channel, removed[j].as_str(), key);
                    proof {
                        lemma_index_remove_channel(
                            old_subs.insert(key, cur),
                            before,
                            self.by_channel@,
                            key,
                            r[j as int],
                        );
                        assert(r.subrange(0, j + 1) =~= r.subrange(0, j as int).push(r[j as int]));
                        r.subrange(0, j as int).lemma_push_to_set_commute(r[j as int]);
                        assert(cur.remove(r[j as int]) =~= held.difference(
                            r.subrange(0, j + 1).to_set(),
                        ));
                        assert(old_subs.insert(key, cur).insert(key, cur.remove(r[j as int]))
                            =~= old_subs.insert(
                            key,
                            held.difference(r.subrange(0, j + 1).to_set()),
                        ));
                    }
                    j = j + 1;
                }
                proof {
                    assert(r.subrange(0, m as int) =~= r);
                    assert(self.subs_map() =~= old_subs.insert(key, held.difference(r.to_set())));
                    assert forall|k: u64| #[trigger] self.connections@.contains_key(k) implies k
                        < self.next_id && texts(self.connections@[k].subscriptions@).no_duplicates() by {
                        assert(old(self).connections@.contains_key(k));
                    }
                    assert(self@.conns =~= old(self)@.conns.insert(
                        key,
                        ConnView { channels: held.difference(r.to_set()), ..old(self)@.conns[key] },
                    ));
                }
                removed
            },
        }
    }

    /// The delivery facts that keep `wf` and the view: the same connections with the
    /// same subscriptions, the same index and the same `next_id`.
    spec fn same_shape(&self, other: &Table) -> bool {
        &&& self.connections@.dom() == other.connections@.dom()
        &&& forall|k: u64| #[trigger]
            self.connections@.contains_key(k) ==> self.connections@[k].subscriptions
                == other.connections@[k].subscriptions
        &&& self.by_channel@ == other.by_channel@
        &&& self.next_id == other.next_id
    }

    proof fn lemma_same_shape_wf(&self, other: &Table)
        requires
            other.wf(),
            self.same_shape(other),
        ensures
            self.wf(),
    {
        assert(self.subs_map() =~= other.subs_map()) by {
            assert forall|k: u64| self.subs_map().contains_key(k) implies self.subs_map()[k]
                == other.subs_map()[k] by {
                assert(self.connections@[k].subscriptions == other.connections@[k].subscriptions);
            }
        }
        assert forall|k: u64| #[trigger] self.connections@.contains_key(k) implies k < self.next_id
            && texts(self.connections@[k].subscriptions@).no_duplicates() by {
            assert(other.connections@.contains_key(k));
            assert(self.connections@[k].subscriptions == other.connections@[k].subscriptions);
        }
    }

    /// Delivers `frame` to every subscriber of `channel`, once each. Returns how many
    /// queues took it. Each subscriber's streak moves as its delivery went; nothing
    /// else changes.
    pub fn publish(&mut self, channel: &str, frame: &Frame) -> (n: usize)
        requires
            old(self).wf(),
        ensures
            final(self).metrics_of() == old(self).metrics_of(),
            final(self).wf(),
            final(self)@.next_id == old(self)@.next_id,
            exists|o: Map<u64, Delivery>|
                {
                    &&& o.dom() == subscribers_of(old(self)@.conns, channel@)
                    &&& final(self)@.conns == after_deliveries(old(self)@.conns, frame@, o)
                    &&& n == queued_count(o)
                },
    {
        let ghost start = *self;
        let ghost subs = subscribers_of(self@.conns, channel@);
        match self.by_channel.get(channel) {
            None => {
                let ghost o = Map::<u64, Delivery>::empty();
                proof {
                    assert(subs =~= Set::<u64>::empty()) by {
                        assert forall|i: u64| !subs.contains(i) by {
                            if subs.contains(i) {
                                assert(self.subs_map()[i].contains(channel@));
                            }
                        }
                    }
                    assert(o.dom() =~= subs);
                    assert(self@.conns =~= after_deliveries(old(self)@.conns, frame@, o));
                    assert(o.dom().filter(|k: u64| o[k] == Delivery::Queued) =~= Set::<u64>::empty());
                }
                0
            },
            Some(ids) => {
                proof {
                    assert(ids@ =~= subs) by {
                        assert forall|i: u64| ids@.contains(i) implies subs.contains(i) by {
                            assert(self.by_channel@[channel@]@.contains(i));
                        }
                        assert forall|i: u64| subs.contains(i) implies ids@.contains(i) by {
                            assert(self.subs_map()[i].contains(channel@));
                        }
                    }
                }
                let total = ids.len();
                let mut n: usize = 0;
                let ghost mut o = Map::<u64, Delivery>::empty();
                let ghost mut done: int = 0;
                let ghost sq = spec_hash_keys_iter(ids).remaining().unref();
                proof {
                    assert(o.dom().filter(|k: u64| o[k] == Delivery::Queued) =~= Set::<u64>::empty());
                    assert(self@.conns =~= after_deliveries(start@.conns, frame@, o));
                }
                for id in it: ids.iter()
                    invariant
                        self.metrics == old(self).metrics,
                        start.wf(),
                        ids@ == subs,
                        subs == subscribers_of(start@.conns, channel@),
                        it.seq() == spec_hash_keys_iter(ids).remaining(),
                        it.seq().unref().to_set() == ids@,
                        it.seq().no_duplicates(),
                        it.seq().len() == total,
                        sq == it.seq().unref(),
                        done == it.index(),
                        o.dom() == it.seq().unref().take(it.index()).to_set(),
                        n == queued_count(o),
                        n <= it.index(),
                        self.connections@.dom() == start.connections@.dom(),
                        forall|k: u64| #[trigger]
                            self.connections@.contains_key(k) ==> self.connections@[k].subscriptions
                                == start.connections@[k].subscriptions,
                        self@.conns == after_deliveries(start@.conns, frame@, o),
                        self.by_channel@ == start.by_channel@,
                        self.next_id == start.next_id,
                {
                    let ghost before = self@.conns;
                    let ghost k = *id;
                    let ghost i = it.index();
                    let ghost sq = it.seq().unref();
                    proof {
                        assert(sq[i] == k);
                        assert(sq.to_set().contains(k));
                        assert(!o.dom().contains(k)) by {
                            if sq.take(i).contains(k) {
                                let j = choose|j: int| 0 <= j < i && #[trigger] sq.take(i)[j] == k;
                                assert(it.seq()[j] == it.seq()[i]);
                            }
                        }
                        assert(ids@.contains(k));
                        assert(subs.contains(k));
                        assert(start@.conns.contains_key(k));
                        assert(start.connections@.contains_key(k));
                        assert(self.connections@.contains_key(k));
                        assert(sq.take(i + 1) =~= sq.take(i).push(k));
                        sq.take(i).lemma_push_to_set_commute(k);
                    }
                    let d = deliver_to(&mut self.connections, &self.metrics, *id, frame);
                    if d == Delivery::Queued {
                        n = n + 1;
                    }
                    proof {
                        lemma_queued_count_insert(o, k, d);
                        lemma_after_deliveries_insert(start@.conns, frame@, o, k, d);
                        assert(self@.conns =~= before.insert(k, after_delivery(before[k], frame@, d)));
                        o = o.insert(k, d);
                        done = done + 1;
                    }
                }
                proof {
                    assert(sq.take(done) =~= sq);
                    self.lemma_same_shape_wf(&start);
                }
                n
            },
        }
    }

    /// Delivers `frame` to every open connection, subscribed or not, once each.
    /// Returns how many queues took it.
    pub fn broadcast(&mut self, frame: &Frame) -> (n: usize)
        requires
            old(self).wf(),
        ensures
            final(self).metrics_of() == old(self).metrics_of(),
            final(self).wf(),
            final(self)@.next_id == old(self)@.next_id,
            exists|o: Map<u64, Delivery>|
                {
                    &&& o.dom() == old(self)@.conns.dom()
                    &&& final(self)@.conns == after_deliveries(old(self)@.conns, frame@, o)
                    &&& n == queued_count(o)
                },
    {
        let ghost start = *self;
        let mut keys: Vec<u64> = Vec::new();
        let ghost ks = spec_keys_iter(&self.connections).remaining().unref();
        for k in it: self.connections.keys()
            invariant
                self.metrics == old(self).metrics,
                it.seq() == spec_keys_iter(&start.connections).remaining(),
                ks == it.seq().unref(),
                keys@ == ks.take(it.index()),
        {
            proof {
                assert(ks.take(it.index() + 1) =~= ks.take(it.index()).push(*k));
            }
            keys.push(*k);
        }
        let total = keys.len();
        proof {
            assert(ks.len() == start.connections@.dom().len());
            assert(ks.take(total as int) =~= ks);
            assert(keys@ == ks);
        }
        let mut n: usize = 0;
        let mut i: usize = 0;
        let ghost mut o = Map::<u64, Delivery>::empty();
        proof {
            assert(o.dom().filter(|k: u64| o[k] == Delivery::Queued) =~= Set::<u64>::empty());
            assert(self@.conns =~= after_deliveries(start@.conns, frame@, o));
            assert(keys@.take(0).to_set() =~= Set::<u64>::empty());
        }
        while i < total
            invariant
                self.metrics == old(self).metrics,
                start.wf(),
                total == keys@.len(),
                keys@.to_set() == start.connections@.dom(),
                keys@.no_duplicates(),
                i <= total,
                o.dom() == keys@.take(i as int).to_set(),
                n == queued_count(o),
                n <= i,
                self.connections@.dom() == start.connections@.dom(),
                forall|k: u64| #[trigger]
                    self.connections@.contains_key(k) ==> self.connections@[k].subscriptions
                        == start.connections@[k].subscriptions,
                self@.conns == after_deliveries(start@.conns, frame@, o),
                self.by_channel@ == start.by_channel@,
                self.next_id == start.next_id,
            decreases total - i,
        {
            let ghost before = self@.conns;
            let k = keys[i];
            proof {
                assert(keys@.to_set().contains(k));
                assert(!o.dom().contains(k)) by {
                    if keys@.take(i as int).contains(k) {
                        let j = choose|j: int| 0 <= j < i && #[trigger] keys@.take(i as int)[j] == k;
                        assert(keys@[j] == keys@[i as int]);
                    }
                }
                assert(keys@.take(i + 1) =~= keys@.take(i as int).push(k));
                keys@.take(i as int).lemma_push_to_set_commute(k);
            }
            let d = deliver_to(&mut self.connections, &self.metrics, k, frame);
            if d == Delivery::Queued {
                n = n + 1;
            }
            proof {
                lemma_queued_count_insert(o, k, d);
                lemma_after_deliveries_insert(start@.conns, frame@, o, k, d);
                assert(self@.conns =~= before.insert(k, after_delivery(before[k], frame@, d)));
                o = o.insert(k, d);
            }
            i = i + 1;
        }
        proof {
            assert(keys@.take(total as int) =~= keys@);
            assert(o.dom() =~= start@.conns.dom());
            self.lemma_same_shape_wf(&start);
        }
        n
    }

    /// Delivers `frame` to connection `id` alone. Returns whether its queue took it;
    /// false, with nothing changed, if `id` is not open.
    pub fn send(&mut self, id: ConnectionId, frame: &Frame) -> (queued: bool)
        requires
            old(self).wf(),
        ensures
            final(self).metrics_of() == old(self).metrics_of(),
            final(self).wf(),
            final(self)@.next_id == old(self)@.next_id,
            !old(self)@.conns.contains_key(id@) ==> !queued && final(self)@.conns == old(
                self,
            )@.conns,
            old(self)@.conns.contains_key(id@) ==> exists|d: Delivery|
                {
                    &&& final(self)@.conns == old(self)@.conns.insert(
                        id@,
                        after_delivery(old(self)@.conns[id@], frame@, d),
                    )
                    &&& queued == (d == Delivery::Queued)
                },
    {
        let ghost start = *self;
        let key = id.0;
        if self.connections.contains_key(&key) {
            let d = deliver_to(&mut self.connections, &self.metrics, key, frame);
            proof {
                assert(self@.conns =~= start@.conns.insert(key, after_delivery(start@.conns[key], frame@, d)));
                assert forall|k: u64| #[trigger] self.connections@.contains_key(k) implies self.connections@[k].subscriptions
                        == start.connections@[k].subscriptions by {
                }
                assert(self.connections@.dom() =~= start.connections@.dom());
                self.lemma_same_shape_wf(&start);
            }
            d == Delivery::Queued
        } else {
            false
        }
    }

    /// Frames dropped for connection `id` since one last got through; zero if it is
    /// not open.
    pub fn streak(&self, id: ConnectionId) -> (n: u64)
        ensures
            n == (if self@.conns.contains_key(id@) {
                self@.conns[id@].streak
            } else {
                0
            }),
    {
        match self.connections.get(&id.0) {
            Some(c) => c.streak,
            None => 0,
        }
    }

    /// Publishes `payload` on `channel`: one `data` frame, serialised once, handed to
    /// every subscriber. Returns how many queues took it.
    pub fn publish_data(&mut self, channel: &str, payload: &RawJson) -> (n: usize)
        requires
            old(self).wf(),
        ensures
            final(self).metrics_of() == old(self).metrics_of(),
            final(self).wf(),
            final(self)@.next_id == old(self)@.next_id,
            exists|o: Map<u64, Delivery>|
                {
                    &&& o.dom() == subscribers_of(old(self)@.conns, channel@)
                    &&& final(self)@.conns == after_deliveries(
                        old(self)@.conns,
                        frame_text(ServerMessage::Data { channel, payload }),
                        o,
                    )
                    &&& n == queued_count(o)
                },
    {
        let frame = ServerMessage::Data { channel, payload }.to_frame();
        self.publish(channel, &frame)
    }

    /// Tells every connection, subscribed or not, that the upstream lost data: one
    /// `resync` frame with no channel list. Returns how many queues took it.
    pub fn resync_all(&mut self) -> (n: usize)
        requires
            old(self).wf(),
        ensures
            final(self).metrics_of() == old(self).metrics_of(),
            final(self).wf(),
            final(self)@.next_id == old(self)@.next_id,
            exists|o: Map<u64, Delivery>|
                {
                    &&& o.dom() == old(self)@.conns.dom()
                    &&& final(self)@.conns == after_deliveries(
                        old(self)@.conns,
                        resync_text(Seq::empty()),
                        o,
                    )
                    &&& n == queued_count(o)
                },
    {
        let frame = ServerMessage::Resync { channels: Vec::new() }.to_frame();
        self.broadcast(&frame)
    }

    /// Tells the subscribers of each of `channels` that those channels lost data: one
    /// `resync` frame listing them all, published on each in turn. Returns how many
    /// deliveries got through, capped at `usize::MAX`.
    pub fn resync(&mut self, channels: &[&str]) -> (n: usize)
        requires
            old(self).wf(),
        ensures
            final(self).metrics_of() == old(self).metrics_of(),
            final(self).wf(),
            final(self)@.next_id == old(self)@.next_id,
            exists|os: Seq<Map<u64, Delivery>>|
                {
                    &&& os.len() == channels@.len()
                    &&& forall|i: int|
                        0 <= i < os.len() ==> #[trigger] os[i].dom() == subscribers_of(
                            old(self)@.conns,
                            channels@[i]@,
                        )
                    &&& final(self)@.conns == after_publishes(
                        old(self)@.conns,
                        resync_text(str_texts(channels@)),
                        os,
                    )
                    &&& n == capped(queued_total(os))
                },
    {
        let list = vstd::slice::slice_to_vec(channels);
        let frame = ServerMessage::Resync { channels: list }.to_frame();
        let ghost text = frame@;
        proof {
            assert(list@ == channels@);
        }
        let ghost start = self@.conns;
        let ghost mut os = Seq::<Map<u64, Delivery>>::empty();
        let mut n: usize = 0;
        let k = channels.len();
        let mut i: usize = 0;
        while i < k
            invariant
                self.metrics == old(self).metrics,
                self.wf(),
                self@.next_id == old(self)@.next_id,
                start == old(self)@.conns,
                k == channels@.len(),
                i <= k,
                frame@ == text,
                os.len() == i,
                forall|j: int|
                    0 <= j < os.len() ==> #[trigger] os[j].dom() == subscribers_of(
                        start,
                        channels@[j]@,
                    ),
                self@.conns == after_publishes(start, text, os),
                n == capped(queued_total(os)),
            decreases k - i,
        {
            let ghost before = self@.conns;
            let m = self.publish(channels[i], &frame);
            let ghost o = choose|o: Map<u64, Delivery>|
                {
                    &&& o.dom() == subscribers_of(before, channels@[i as int]@)
                    &&& self@.conns == after_deliveries(before, text, o)
                    &&& m == queued_count(o)
                };
            proof {
                law_publishes_keep_subscribers(start, text, os, channels@[i as int]@);
                assert(os.push(o).drop_last() =~= os);
            }
            n = n.saturating_add(m);
            proof {
                os = os.push(o);
            }
            i = i + 1;
        }
        proof {
            assert(resync_text(str_texts(channels@)) == text);
        }
        n
    }

    /// Number of open connections.
    pub fn len(&self) -> (n: usize)
        ensures
            n == self@.conns.len(),
    {
        proof {
            assert(self@.conns.dom() =~= self.connections@.dom());
        }
        self.connections.len()
    }

    /// Whether no connections are open.
    pub fn is_empty(&self) -> (r: bool)
        ensures
            r == (self@.conns.len() == 0),
    {
        self.len() == 0
    }

    /// Whether connection `id` is open and subscribed to `channel`.
    pub fn is_subscribed(&self, id: ConnectionId, channel: &str) -> (r: bool)
        ensures
            r == (self@.conns.contains_key(id@) && self@.conns[id@].channels.contains(channel@)),
    {
        match self.connections.get(&id.0) {
            Some(c) => {
                let name = String::from_str(channel);
                holds(&c.subscriptions, &name)
            },
            None => false,
        }
    }

    /// Number of subscribers to `channel`.
    pub fn subscribers(&self, channel: &str) -> (n: usize)
        requires
            self.wf(),
        ensures
            n == subscribers_of(self@.conns, channel@).len(),
    {
        let ghost subs = subscribers_of(self@.conns, channel@);
        match self.by_channel.get(channel) {
            Some(ids) => {
                assert(ids@ =~= subs) by {
                    assert forall|i: u64| ids@.contains(i) implies subs.contains(i) by {
                        assert(self.by_channel@[channel@]@.contains(i));
                    }
                    assert forall|i: u64| subs.contains(i) implies ids@.contains(i) by {
                        assert(self.subs_map()[i].contains(channel@));
                    }
                }
                ids.len()
            },
            None => {
                assert(subs =~= Set::<u64>::empty()) by {
                    assert forall|i: u64| !subs.contains(i) by {
                        if subs.contains(i) {
                            assert(self.subs_map()[i].contains(channel@));
                        }
                    }
                }
                0
            },
        }
    }
}

/// All connections, keyed by id, with per-channel subscriber lookup.
pub struct Registry {
    table: Table,
}

impl View for Registry {
    type V = RegistryView;

    closed spec fn view(&self) -> RegistryView {
        self.table@
    }
}

impl Registry {
    /// Every registry keeps its tables in step: ids below `next_id`, no channel held
    /// twice by one connection, and the per-channel index agreeing with the subscriptions.
    #[verifier::type_invariant]
    closed spec fn inv(self) -> bool {
        self.table.wf()
    }

    /// An empty registry whose connections will report to `metrics`.
    pub fn new(metrics: Arc<Metrics>) -> (registry: Registry)
        ensures
            registry@.conns == Map::<u64, ConnView>::empty(),
            registry@.next_id == 1,
            registry.metrics_of() == metrics,
            registry@.conns.dom().finite(),
    {
        Registry { table: Table::new(metrics) }
    }

    /// The counters this registry reports to.
    pub closed spec fn metrics_of(&self) -> Arc<Metrics> {
        self.table.metrics_of()
    }

    /// Whether another connection can be given a fresh id.
    pub open spec fn has_free_id_spec(&self) -> bool {
        self@.next_id < u64::MAX
    }

    /// Takes the tables out, leaving empty ones that report to the same counters.
    fn take_table(&mut self) -> (table: Table)
        ensures
            table == old(self).table,
            table.wf(),
    {
        proof {
            use_type_invariant(&*self);
        }
        let mut table = Table::new(Arc::clone(&self.table.metrics));
        std::mem::swap(&mut table, &mut self.table);
        table
    }

    /// Counters: the ones the registry was made with.
    pub fn metrics(&self) -> (m: &Arc<Metrics>)
        ensures
            *m == self.metrics_of(),
    {
        proof {
            use_type_invariant(self);
        }
        self.table.metrics()
    }

    /// Whether another connection can be given a fresh id. Ids are never reused, so
    /// this is false only after `u64::MAX - 1` connections.
    pub fn has_free_id(&self) -> (r: bool)
        ensures
            r == self.has_free_id_spec(),
    {
        proof {
            use_type_invariant(self);
        }
        self.table.has_free_id()
    }

    /// Registers a connection for `subject` whose frames go to `tx`. It starts with no
    /// subscriptions and an empty streak, under a fresh id.
    pub fn add(&mut self, subject: String, tx: Sender<Frame>) -> (id: ConnectionId)
        requires
            old(self).has_free_id_spec(),
        ensures
            final(self).metrics_of() == old(self).metrics_of(),
            id@ == old(self)@.next_id,
            !old(self)@.conns.contains_key(id@),
            final(self)@.conns == old(self)@.conns.insert(
                id@,
                ConnView {
                    subject: subject@,
                    channels: Set::empty(),
                    streak: 0,
                    offered: Seq::empty(),
                },
            ),
            final(self)@.next_id == old(self)@.next_id + 1,
            final(self)@.conns.dom().finite(),
            final(self)@.conns.len() == old(self)@.conns.len() + 1,
    {
        proof {
            use_type_invariant(&*self);
        }
        let mut table = self.take_table();
        let r = table.add(subject, tx);
        self.table = table;
        r
    }

    /// Removes connection `id` and its subscriptions. Nothing happens if it is not open.
    pub fn remove(&mut self, id: ConnectionId)
        ensures
            final(self).metrics_of() == old(self).metrics_of(),
            final(self)@.conns == old(self)@.conns.remove(id@),
            final(self)@.next_id == old(self)@.next_id,
            final(self)@.conns.dom().finite(),
            final(self)@.conns.len() == if old(self)@.conns.contains_key(id@) {
                old(self)@.conns.len() - 1
            } else {
                old(self)@.conns.len() as int
            },
    {
        proof {
            use_type_invariant(&*self);
        }
        let mut table = self.take_table();
        table.remove(id);
        self.table = table;
    }

    /// Adds subscriptions for connection `id`, respecting `max` per connection.
    /// Returns the channels newly added and the ones refused for the limit, as
    /// [`subscribe_plan`] says. Nothing changes if `id` is not open.
    pub fn subscribe(&mut self, id: ConnectionId, channels: Vec<String>, max: usize) -> (r: (
        Vec<String>,
        Vec<String>,
    ))
        ensures
            final(self).metrics_of() == old(self).metrics_of(),
            final(self)@.next_id == old(self)@.next_id,
            !old(self)@.conns.contains_key(id@) ==> r.0@.len() == 0 && r.1@.len() == 0
                && final(self)@.conns == old(self)@.conns,
            old(self)@.conns.contains_key(id@) ==> {
                let c = old(self)@.conns[id@];
                let plan = subscribe_plan(c.channels, texts(channels@), max as nat);
                &&& texts(r.0@) == plan.0
                &&& texts(r.1@) == plan.1
                &&& final(self)@.conns == old(self)@.conns.insert(
                    id@,
                    ConnView { channels: c.channels + plan.0.to_set(), ..c },
                )
            },
    {
        proof {
            use_type_invariant(&*self);
        }
        let mut table = self.take_table();
        let r = table.subscribe(id, channels, max);
        self.table = table;
        r
    }

    /// Removes subscriptions of connection `id`. Returns the channels removed, as
    /// [`unsubscribe_plan`] says. Channels it does not hold are ignored, and nothing
    /// changes if `id` is not open.
    pub fn unsubscribe(&mut self, id: ConnectionId, channels: Vec<String>) -> (removed: Vec<String>)
        ensures
            final(self).metrics_of() == old(self).metrics_of(),
            final(self)@.next_id == old(self)@.next_id,
            !old(self)@.conns.contains_key(id@) ==> removed@.len() == 0 && final(self)@.conns
                == old(self)@.conns,
            old(self)@.conns.contains_key(id@) ==> {
                let c = old(self)@.conns[id@];
                let plan = unsubscribe_plan(c.channels, texts(channels@));
                &&& texts(removed@) == plan
                &&& final(self)@.conns == old(self)@.conns.insert(
                    id@,
                    ConnView { channels: c.channels.difference(plan.to_set()), ..c },
                )
            },
    {
        proof {
            use_type_invariant(&*self);
        }
        let mut table = self.take_table();
        let r = table.unsubscribe(id, channels);
        self.table = table;
        r
    }

    /// Delivers `frame` to every subscriber of `channel`, once each. Returns how many
    /// queues took it. Each subscriber's streak moves as its delivery went; nothing
    /// else changes.
    pub fn publish(&mut self, channel: &str, frame: &Frame) -> (n: usize)
        ensures
            final(self).metrics_of() == old(self).metrics_of(),
            final(self)@.next_id == old(self)@.next_id,
            exists|o: Map<u64, Delivery>|
                {
                    &&& o.dom() == subscribers_of(old(self)@.conns, channel@)
                    &&& final(self)@.conns == after_deliveries(old(self)@.conns, frame@, o)
                    &&& n == queued_count(o)
                },
    {
        proof {
            use_type_invariant(&*self);
        }
        let mut table = self.take_table();
        let r = table.publish(channel, frame);
        self.table = table;
        r
    }

    /// Delivers `frame` to every open connection, subscribed or not, once each.
    /// Returns how many queues took it.
    pub fn broadcast(&mut self, frame: &Frame) -> (n: usize)
        ensures
            final(self).metrics_of() == old(self).metrics_of(),
            final(self)@.next_id == old(self)@.next_id,
            exists|o: Map<u64, Delivery>|
                {
                    &&& o.dom() == old(self)@.conns.dom()
                    &&& final(self)@.conns == after_deliveries(old(self)@.conns, frame@, o)
                    &&& n == queued_count(o)
                },
    {
        proof {
            use_type_invariant(&*self);
        }
        let mut table = self.take_table();
        let r = table.broadcast(frame);
        self.table = table;
        r
    }

    /// Delivers `frame` to connection `id` alone. Returns whether its queue took it;
    /// false, with nothing changed, if `id` is not open.
    pub fn send(&mut self, id: ConnectionId, frame: &Frame) -> (queued: bool)
        ensures
            final(self).metrics_of() == old(self).metrics_of(),
            final(self)@.next_id == old(self)@.next_id,
            !old(self)@.conns.contains_key(id@) ==> !queued && final(self)@.conns == old(
                self,
            )@.conns,
            old(self)@.conns.contains_key(id@) ==> exists|d: Delivery|
                {
                    &&& final(self)@.conns == old(self)@.conns.insert(
                        id@,
                        after_delivery(old(self)@.conns[id@], frame@, d),
                    )
                    &&& queued == (d == Delivery::Queued)
                },
    {
        proof {
            use_type_invariant(&*self);
        }
        let mut table = self.take_table();
        let r = table.send(id, frame);
        self.table = table;
        r
    }

    /// Frames dropped for connection `id` since one last got through; zero if it is
    /// not open.
    pub fn streak(&self, id: ConnectionId) -> (n: u64)
        ensures
            n == (if self@.conns.contains_key(id@) {
                self@.conns[id@].streak
            } else {
                0
            }),
    {
        proof {
            use_type_invariant(self);
        }
        self.table.streak(id)
    }

    /// Publishes `payload` on `channel`: one `data` frame, serialised once, handed to
    /// every subscriber. Returns how many queues took it.
    pub fn publish_data(&mut self, channel: &str, payload: &RawJson) -> (n: usize)
        ensures
            final(self).metrics_of() == old(self).metrics_of(),
            final(self)@.next_id == old(self)@.next_id,
            exists|o: Map<u64, Delivery>|
                {
                    &&& o.dom() == subscribers_of(old(self)@.conns, channel@)
                    &&& final(self)@.conns == after_deliveries(
                        old(self)@.conns,
                        frame_text(ServerMessage::Data { channel, payload }),
                        o,
                    )
                    &&& n == queued_count(o)
                },
    {
        proof {
            use_type_invariant(&*self);
        }
        let mut table = self.take_table();
        let r = table.publish_data(channel, payload);
        self.table = table;
        r
    }

    /// Tells every connection, subscribed or not, that the upstream lost data: one
    /// `resync` frame with no channel list. Returns how many queues took it.
    pub fn resync_all(&mut self) -> (n: usize)
        ensures
            final(self).metrics_of() == old(self).metrics_of(),
            final(self)@.next_id == old(self)@.next_id,
            exists|o: Map<u64, Delivery>|
                {
                    &&& o.dom() == old(self)@.conns.dom()
                    &&& final(self)@.conns == after_deliveries(
                        old(self)@.conns,
                        resync_text(Seq::empty()),
                        o,
                    )
                    &&& n == queued_count(o)
                },
    {
        proof {
            use_type_invariant(&*self);
        }
        let mut table = self.take_table();
        let r = table.resync_all();
        self.table = table;
        r
    }

    /// Tells the subscribers of each of `channels` that those channels lost data: one
    /// `resync` frame listing them all, published on each in turn. Returns how many
    /// deliveries got through, capped at `usize::MAX`.
    pub fn resync(&mut self, channels: &[&str]) -> (n: usize)
        ensures
            final(self).metrics_of() == old(self).metrics_of(),
            final(self)@.next_id == old(self)@.next_id,
            exists|os: Seq<Map<u64, Delivery>>|
                {
                    &&& os.len() == channels@.len()
                    &&& forall|i: int|
                        0 <= i < os.len() ==> #[trigger] os[i].dom() == subscribers_of(
                            old(self)@.conns,
                            channels@[i]@,
                        )
                    &&& final(self)@.conns == after_publishes(
                        old(self)@.conns,
                        resync_text(str_texts(channels@)),
                        os,
                    )
                    &&& n == capped(queued_total(os))
                },
    {
        proof {
            use_type_invariant(&*self);
        }
        let mut table = self.take_table();
        let r = table.resync(channels);
        self.table = table;
        r
    }

    /// Number of open connections.
    pub fn len(&self) -> (n: usize)
        ensures
            n == self@.conns.len(),
    {
        proof {
            use_type_invariant(self);
        }
        self.table.len()
    }

    /// Whether no connections are open.
    pub fn is_empty(&self) -> (r: bool)
        ensures
            r == (self@.conns.len() == 0),
    {
        proof {
            use_type_invariant(self);
        }
        self.table.is_empty()
    }

    /// Whether connection `id` is open and subscribed to `channel`.
    pub fn is_subscribed(&self, id: ConnectionId, channel: &str) -> (r: bool)
        ensures
            r == (self@.conns.contains_key(id@) && self@.conns[id@].channels.contains(channel@)),
    {
        proof {
            use_type_invariant(self);
        }
        self.table.is_subscribed(id, channel)
    }

    /// Number of subscribers to `channel`.
    pub fn subscribers(&self, channel: &str) -> (n: usize)
        ensures
            n == subscribers_of(self@.conns, channel@).len(),
    {
        proof {
            use_type_invariant(self);
        }
        self.table.subscribers(channel)
    }
}


/// Publishing a frame on `channel` offers that same frame exactly once to every
/// connection subscribed to the channel, and nothing to any other connection; no
/// connection's subject or subscriptions change, and no connection appears or goes.
pub proof fn law_publish_offers_subscribers_only(
    conns: Map<u64, ConnView>,
    channel: Seq<char>,
    frame: Seq<char>,
    o: Map<u64, Delivery>,
)
    requires
        o.dom() == subscribers_of(conns, channel),
    ensures
        after_deliveries(conns, frame, o).dom() == conns.dom(),
        forall|id: u64| #[trigger]
            conns.contains_key(id) ==> {
                let c = conns[id];
                let n = after_deliveries(conns, frame, o)[id];
                &&& n.subject == c.subject
                &&& n.channels == c.channels
                &&& n.offered == if c.channels.contains(channel) {
                    c.offered.push(frame)
                } else {
                    c.offered
                }
            },
{
    assert(after_deliveries(conns, frame, o).dom() =~= conns.dom());
    assert forall|id: u64| #[trigger] conns.contains_key(id) implies o.contains_key(id)
        == conns[id].channels.contains(channel) by {
        assert(o.dom().contains(id) == subscribers_of(conns, channel).contains(id));
    }
}

/// A broadcast offers the same frame exactly once to every open connection.
pub proof fn law_broadcast_offers_everyone(
    conns: Map<u64, ConnView>,
    frame: Seq<char>,
    o: Map<u64, Delivery>,
)
    requires
        o.dom() == conns.dom(),
    ensures
        after_deliveries(conns, frame, o).dom() == conns.dom(),
        forall|id: u64| #[trigger]
            conns.contains_key(id) ==> after_deliveries(conns, frame, o)[id].offered
                == conns[id].offered.push(frame),
{
    assert(after_deliveries(conns, frame, o).dom() =~= conns.dom());
    assert forall|id: u64| #[trigger] conns.contains_key(id) implies after_deliveries(
        conns,
        frame,
        o,
    )[id].offered == conns[id].offered.push(frame) by {
        assert(o.dom().contains(id));
    }
}

/// A removed connection is nobody's subscriber, so no publish reaches it.
pub proof fn law_removed_connection_gets_nothing(
    conns: Map<u64, ConnView>,
    id: u64,
    channel: Seq<char>,
)
    ensures
        !subscribers_of(conns.remove(id), channel).contains(id),
{
}

proof fn lemma_plan_shape(held: Set<Seq<char>>, req: Seq<Seq<char>>, max: nat)
    ensures
        ({
            let (added, over) = subscribe_plan(held, req, max);
            &&& added.no_duplicates()
            &&& forall|ch: Seq<char>| added.contains(ch) ==> !held.contains(ch) && req.contains(ch)
            &&& forall|ch: Seq<char>| over.contains(ch) ==> !held.contains(ch) && req.contains(ch)
                && !added.contains(ch)
            &&& forall|ch: Seq<char>|
                req.contains(ch) ==> held.contains(ch) || added.contains(ch) || over.contains(ch)
            &&& (added.len() > 0 ==> held.len() + added.len() <= max)
            &&& (over.len() > 0 ==> held.len() + added.len() >= max)
        }),
    decreases req.len(),
{
    if req.len() > 0 {
        let prev = req.drop_last();
        lemma_plan_shape(held, prev, max);
        let (a0, o0) = subscribe_plan(held, prev, max);
        let ch = req.last();
        assert forall|c: Seq<char>| prev.contains(c) implies req.contains(c) by {
            let k = choose|k: int| 0 <= k < prev.len() && prev[k] == c;
            assert(req[k] == c);
        }
        assert(req[req.len() - 1] == ch);
        assert forall|c: Seq<char>| req.contains(c) implies prev.contains(c) || c == ch by {
            let k = choose|k: int| 0 <= k < req.len() && req[k] == c;
            if k < req.len() - 1 {
                assert(prev[k] == c);
            }
        }
        if !(held.contains(ch) || a0.contains(ch)) {
            if held.len() + a0.len() >= max {
                assert forall|c: Seq<char>| o0.contains(c) implies o0.push(ch).contains(c) by {
                    let k = choose|k: int| 0 <= k < o0.len() && o0[k] == c;
                    assert(o0.push(ch)[k] == c);
                }
                assert(o0.push(ch)[o0.len() as int] == ch);
                assert forall|c: Seq<char>| o0.push(ch).contains(c) implies o0.contains(c)
                    || c == ch by {
                    let k = choose|k: int| 0 <= k < o0.push(ch).len() && o0.push(ch)[k] == c;
                    if k < o0.len() {
                        assert(o0[k] == c);
                    }
                }
            } else {
                let a1 = a0.push(ch);
                assert forall|c: Seq<char>| a1.contains(c) implies a0.contains(c) || c == ch by {
                    let k = choose|k: int| 0 <= k < a1.len() && a1[k] == c;
                    if k < a0.len() {
                        assert(a0[k] == c);
                    }
                }
                assert forall|c: Seq<char>| a0.contains(c) implies a1.contains(c) by {
                    let k = choose|k: int| 0 <= k < a0.len() && a0[k] == c;
                    assert(a1[k] == c);
                }
                assert(a1[a1.len() - 1] == ch);
            }
        }
    }
}

/// Subscribing never takes a connection past its limit: the channels it holds
/// afterwards are the ones it held plus the ones added, each added once, none already
/// held, and if any was added there are at most `max` in all.
pub proof fn law_subscribe_respects_limit(held: Set<Seq<char>>, req: Seq<Seq<char>>, max: nat)
    requires
        held.finite(),
    ensures
        ({
            let added = subscribe_plan(held, req, max).0;
            &&& added.no_duplicates()
            &&& held.disjoint(added.to_set())
            &&& (held + added.to_set()).len() == held.len() + added.len()
            &&& (added.len() > 0 ==> (held + added.to_set()).len() <= max)
        }),
{
    lemma_plan_shape(held, req, max);
    let added = subscribe_plan(held, req, max).0;
    added.unique_seq_to_set();
    assert(held.disjoint(added.to_set()));
    vstd::set_lib::lemma_set_disjoint_lens(held, added.to_set());
}

/// Every requested channel that was not refused for the limit is held afterwards,
/// and the ones refused for the limit are not.
pub proof fn law_subscribe_accounts_for_every_channel(
    held: Set<Seq<char>>,
    req: Seq<Seq<char>>,
    max: nat,
)
    ensures
        ({
            let (added, over) = subscribe_plan(held, req, max);
            &&& forall|ch: Seq<char>|
                req.contains(ch) ==> (held + added.to_set()).contains(ch) || over.contains(ch)
            &&& forall|ch: Seq<char>|
                over.contains(ch) ==> req.contains(ch) && !(held + added.to_set()).contains(ch)
        }),
{
    lemma_plan_shape(held, req, max);
}

/// Subscribing to channels a connection already holds is a no-op: nothing is added
/// and nothing is refused.
pub proof fn law_resubscribe_is_noop(held: Set<Seq<char>>, req: Seq<Seq<char>>, max: nat)
    requires
        forall|i: int| 0 <= i < req.len() ==> held.contains(#[trigger] req[i]),
    ensures
        subscribe_plan(held, req, max) == (Seq::<Seq<char>>::empty(), Seq::<Seq<char>>::empty()),
    decreases req.len(),
{
    if req.len() > 0 {
        law_resubscribe_is_noop(held, req.drop_last(), max);
        assert(held.contains(req[req.len() - 1]));
    }
}

/// Unsubscribing removes exactly the requested channels that were held, each once:
/// afterwards the connection holds none of the requested channels and still holds
/// every other one.
pub proof fn law_unsubscribe_removes_requested(held: Set<Seq<char>>, req: Seq<Seq<char>>)
    ensures
        unsubscribe_plan(held, req).no_duplicates(),
        unsubscribe_plan(held, req).to_set() == held.intersect(req.to_set()),
        held.difference(unsubscribe_plan(held, req).to_set()) == held.difference(req.to_set()),
    decreases req.len(),
{
    if req.len() > 0 {
        let prev = req.drop_last();
        law_unsubscribe_removes_requested(held, prev);
        let r0 = unsubscribe_plan(held, prev);
        let ch = req.last();
        assert(req =~= prev.push(ch));
        assert(req.to_set() =~= prev.to_set().insert(ch)) by {
            assert forall|c: Seq<char>| req.to_set().contains(c) implies prev.to_set().insert(
                ch,
            ).contains(c) by {
                let k = choose|k: int| 0 <= k < req.len() && req[k] == c;
                if k < prev.len() {
                    assert(prev[k] == c);
                }
            }
            assert forall|c: Seq<char>| prev.to_set().insert(ch).contains(c) implies req.to_set().contains(c) by {
                if c == ch {
                    assert(req[req.len() - 1] == c);
                } else {
                    let k = choose|k: int| 0 <= k < prev.len() && prev[k] == c;
                    assert(req[k] == c);
                }
            }
        }
        if held.contains(ch) && !r0.contains(ch) {
            let r1 = r0.push(ch);
            assert(r1.to_set() =~= r0.to_set().insert(ch)) by {
                assert forall|c: Seq<char>| r1.to_set().contains(c) implies r0.to_set().insert(
                    ch,
                ).contains(c) by {
                    let k = choose|k: int| 0 <= k < r1.len() && r1[k] == c;
                    if k < r0.len() {
                        assert(r0[k] == c);
                    }
                }
                assert forall|c: Seq<char>| r0.to_set().insert(ch).contains(c) implies r1.to_set().contains(c) by {
                    if c == ch {
                        assert(r1[r1.len() - 1] == c);
                    } else {
                        let k = choose|k: int| 0 <= k < r0.len() && r0[k] == c;
                        assert(r1[k] == c);
                    }
                }
            }
            assert(r1.to_set() =~= held.intersect(req.to_set()));
            assert(held.difference(r1.to_set()) =~= held.difference(req.to_set()));
        } else {
            assert(held.intersect(req.to_set()) =~= held.intersect(prev.to_set())) by {
                if held.contains(ch) {
                    assert(r0.to_set().contains(ch));
                }
            }
            assert(held.difference(req.to_set()) =~= held.difference(prev.to_set())) by {
                if held.contains(ch) {
                    assert(r0.to_set().contains(ch));
                }
            }
        }
    } else {
        assert(req.to_set() =~= Set::<Seq<char>>::empty());
        assert(unsubscribe_plan(held, req).to_set() =~= Set::<Seq<char>>::empty());
        assert(held.intersect(req.to_set()) =~= Set::<Seq<char>>::empty());
        assert(held.difference(Set::<Seq<char>>::empty()) =~= held);
    }
}

/// Unsubscribing from the channels one just subscribed to undoes the subscribe: a
/// connection that held none of them is left holding exactly what it held before.
pub proof fn law_unsubscribe_undoes_subscribe(held: Set<Seq<char>>, req: Seq<Seq<char>>, max: nat)
    requires
        forall|i: int| 0 <= i < req.len() ==> !held.contains(#[trigger] req[i]),
    ensures
        ({
            let after = held + subscribe_plan(held, req, max).0.to_set();
            after.difference(unsubscribe_plan(after, req).to_set()) == held
        }),
{
    lemma_plan_shape(held, req, max);
    let after = held + subscribe_plan(held, req, max).0.to_set();
    law_unsubscribe_removes_requested(after, req);
    assert forall|ch: Seq<char>| held.contains(ch) implies !req.to_set().contains(ch) by {
        if req.to_set().contains(ch) {
            let k = choose|k: int| 0 <= k < req.len() && req[k] == ch;
            assert(!held.contains(req[k]));
        }
    }
    assert(after.difference(req.to_set()) =~= held);
}

/// A connection after `frames` were handed to its queue one after another, by whatever
/// path, the `i`-th meeting `ds[i]`.
pub open spec fn after_each(c: ConnView, frames: Seq<Seq<char>>, ds: Seq<Delivery>) -> ConnView
    decreases frames.len(),
{
    if frames.len() == 0 {
        c
    } else {
        after_delivery(
            after_each(c, frames.drop_last(), ds),
            frames.last(),
            ds[frames.len() - 1],
        )
    }
}

/// The streak counts the frames dropped since the last one that got through: after a
/// frame that got through (the `j`-th) and then only drops, the streak is the number
/// of drops. Frames offered to a closed receiver are not drops and are left out.
pub proof fn law_streak_counts_drops_since_last_delivery(
    c: ConnView,
    frames: Seq<Seq<char>>,
    ds: Seq<Delivery>,
    j: int,
)
    requires
        0 <= j < frames.len(),
        ds[j] == Delivery::Queued,
        forall|k: int| j < k < frames.len() ==> #[trigger] ds[k] == Delivery::Full,
        frames.len() - 1 - j < u64::MAX,
    ensures
        after_each(c, frames, ds).streak == frames.len() - 1 - j,
        after_each(c, frames, ds).offered == c.offered + frames,
    decreases frames.len(),
{
    if frames.len() - 1 > j {
        law_streak_counts_drops_since_last_delivery(c, frames.drop_last(), ds, j);
        assert(ds[frames.len() - 1] == Delivery::Full);
        assert(c.offered + frames =~= (c.offered + frames.drop_last()).push(frames.last()));
    } else {
        lemma_after_each_offered(c, frames.drop_last(), ds);
        assert(c.offered + frames =~= (c.offered + frames.drop_last()).push(frames.last()));
    }
}

proof fn lemma_after_each_offered(c: ConnView, frames: Seq<Seq<char>>, ds: Seq<Delivery>)
    ensures
        after_each(c, frames, ds).offered == c.offered + frames,
    decreases frames.len(),
{
    if frames.len() > 0 {
        lemma_after_each_offered(c, frames.drop_last(), ds);
        assert(c.offered + frames =~= (c.offered + frames.drop_last()).push(frames.last()));
    } else {
        assert(c.offered + frames =~= c.offered);
    }
}

/// A registry holds finitely many connections, so counts of them are meaningful.
pub proof fn law_connections_finite(r: &Registry)
    ensures
        r@.conns.dom().finite(),
{
    assert(r@.conns.dom() =~= r.table.connections@.dom());
}

/// Removing an open connection takes it, and only it, out of every channel's
/// subscribers, and leaves one connection fewer; removing one that is not open
/// changes nothing.
pub proof fn law_remove_leaves_subscribers(conns: Map<u64, ConnView>, id: u64, channel: Seq<char>)
    requires
        conns.dom().finite(),
    ensures
        subscribers_of(conns.remove(id), channel) == subscribers_of(conns, channel).remove(id),
        conns.contains_key(id) ==> conns.remove(id).len() == conns.len() - 1,
        !conns.contains_key(id) ==> conns.remove(id) == conns,
{
    assert(subscribers_of(conns.remove(id), channel) =~= subscribers_of(conns, channel).remove(
        id,
    ));
    if !conns.contains_key(id) {
        assert(conns.remove(id) =~= conns);
    }
}

/// A connection added with no subscriptions is nobody's subscriber, so adding it
/// changes no channel's subscribers, and there is one connection more.
pub proof fn law_add_leaves_subscribers(
    conns: Map<u64, ConnView>,
    id: u64,
    c: ConnView,
    channel: Seq<char>,
)
    requires
        conns.dom().finite(),
        !conns.contains_key(id),
        c.channels == Set::<Seq<char>>::empty(),
    ensures
        subscribers_of(conns.insert(id, c), channel) == subscribers_of(conns, channel),
        conns.insert(id, c).len() == conns.len() + 1,
{
    assert(subscribers_of(conns.insert(id, c), channel) =~= subscribers_of(conns, channel));
}

proof fn lemma_unsubscribe_all_held(held: Set<Seq<char>>, s: Seq<Seq<char>>)
    requires
        s.no_duplicates(),
        forall|i: int| 0 <= i < s.len() ==> held.contains(#[trigger] s[i]),
    ensures
        unsubscribe_plan(held, s) == s,
    decreases s.len(),
{
    if s.len() > 0 {
        let prev = s.drop_last();
        assert forall|i: int| 0 <= i < prev.len() implies held.contains(#[trigger] prev[i]) by {
            assert(prev[i] == s[i]);
        }
        lemma_unsubscribe_all_held(held, prev);
        assert(!prev.contains(s.last())) by {
            if prev.contains(s.last()) {
                let k = choose|k: int| 0 <= k < prev.len() && prev[k] == s.last();
                assert(s[k] == s[s.len() - 1]);
            }
        }
        assert(held.contains(s[s.len() - 1]));
        assert(prev.push(s.last()) =~= s);
    }
}

/// Unsubscribing from exactly the channels a subscribe added removes all of them, in
/// the same order, and leaves the connection holding what it held before.
pub proof fn law_unsubscribing_what_was_added_restores(
    held: Set<Seq<char>>,
    req: Seq<Seq<char>>,
    max: nat,
)
    ensures
        ({
            let added = subscribe_plan(held, req, max).0;
            let after = held + added.to_set();
            &&& unsubscribe_plan(after, added) == added
            &&& after.difference(added.to_set()) == held
        }),
{
    lemma_plan_shape(held, req, max);
    let added = subscribe_plan(held, req, max).0;
    let after = held + added.to_set();
    assert forall|i: int| 0 <= i < added.len() implies after.contains(#[trigger] added[i]) by {
        assert(added.to_set().contains(added[i]));
    }
    lemma_unsubscribe_all_held(after, added);
    assert(after.difference(added.to_set()) =~= held);
}

/// A connection holds finitely many channels, so counts of them, and
/// [`law_subscribe_respects_limit`], apply to it.
pub proof fn law_channels_finite(r: &Registry, id: u64)
    requires
        r@.conns.contains_key(id),
    ensures
        r@.conns[id].channels.finite(),
{
    broadcast use vstd::seq_lib::seq_to_set_is_finite;
    assert(r@.conns[id].channels == texts(r.table.connections@[id].subscriptions@).to_set());
}

} // verus!
