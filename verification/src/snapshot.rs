//! Initial state for a channel, sent on subscribe.

use vstd::prelude::*;
use vstd::hash_map::StringHashMap;

use crate::protocol::RawJson;

verus! {

/// Provides the current state of a channel so a new subscriber does not start from
/// nothing and wait for the next delta.
pub trait SnapshotSource: Send + Sync + 'static {
    /// The snapshot for `channel` as JSON, or `None` if the channel has no notion of a
    /// snapshot.
    fn snapshot(&self, channel: &str) -> Option<RawJson>;
}

/// No snapshots. The default.
#[derive(Debug, Clone, Copy, Default)]
pub struct NoSnapshots;

impl SnapshotSource for NoSnapshots {
    fn snapshot(&self, channel: &str) -> (s: Option<RawJson>)
        ensures
            s is None,
    {
        None
    }
}

/// Remembers the last payload recorded for each channel and serves it as the snapshot.
///
/// Right for channels whose latest message *is* the state, such as a ticker or a full
/// book. Wrong for channels that publish deltas; those need a real source that holds
/// the assembled state.
pub struct LastValue {
    last: StringHashMap<RawJson>,
}

impl View for LastValue {
    /// The latest payload recorded per channel.
    type V = Map<Seq<char>, Seq<char>>;

    closed spec fn view(&self) -> Map<Seq<char>, Seq<char>> {
        self.last@.map_values(|v: RawJson| v@)
    }
}

impl LastValue {
    /// Empty.
    pub fn new() -> (s: LastValue)
        ensures
            s@ == Map::<Seq<char>, Seq<char>>::empty(),
    {
        let s = LastValue { last: StringHashMap::new() };
        assert(s@ =~= Map::<Seq<char>, Seq<char>>::empty());
        s
    }

    /// Record `payload` as the latest state of `channel`.
    pub fn record(&mut self, channel: &str, payload: &RawJson)
        ensures
            final(self)@ == old(self)@.insert(channel@, payload@),
    {
        self.last.insert(String::from_str(channel), payload.clone());
        assert(self@ =~= old(self)@.insert(channel@, payload@));
    }
}

impl Default for LastValue {
    fn default() -> (s: LastValue)
        ensures
            s@ == Map::<Seq<char>, Seq<char>>::empty(),
    {
        LastValue::new()
    }
}

impl SnapshotSource for LastValue {
    fn snapshot(&self, channel: &str) -> (s: Option<RawJson>)
        ensures
            match s {
                Some(v) => self@.contains_key(channel@) && v@ == self@[channel@],
                None => !self@.contains_key(channel@),
            },
    {
        match self.last.get(channel) {
            Some(v) => Some(v.clone()),
            None => None,
        }
    }
}

/// What a [`LastValue`] serves for a channel after `payload` was recorded on it: that
/// payload, whatever was recorded before; and, for any other channel, what it served
/// before.
pub proof fn law_last_value_serves_latest(
    before: Map<Seq<char>, Seq<char>>,
    channel: Seq<char>,
    payload: Seq<char>,
    other: Seq<char>,
)
    ensures
        before.insert(channel, payload).contains_key(channel),
        before.insert(channel, payload)[channel] == payload,
        other != channel ==> (before.insert(channel, payload).contains_key(other)
            == before.contains_key(other) && before.insert(channel, payload).get(other)
            == before.get(other)),
{
}

} // verus!
