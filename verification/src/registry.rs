//! The channel registry: the single owner of every channel's membership and
//! message history, and the broadcast engine that fans frames out to
//! subscribers.
//!
//! A channel, once created, lives for the rest of the process, including
//! after its last subscriber leaves. Delivery to a subscriber is an enqueue
//! onto that connection's outbound queue and never blocks; a failed enqueue
//! marks the subscriber dead. No operation here fails the registry itself:
//! every error is local to one endpoint or one caller.
//!
//! Callers that share one registry across connections must serialize its
//! operations behind one exclusive lock; each `&mut self` operation below is
//! one such linearized step.

use vstd::prelude::*;

use crate::endpoint::Endpoint;
use crate::message::{encoded_of, message_view, ChatMessage, ChatMessageView, encode_message};

verus! {

/// In-memory state of one named room: its ordered, append-only message
/// history and the endpoints currently subscribed to it.
pub struct Channel {
    pub history: Vec<ChatMessage>,
    pub subscribers: Vec<Endpoint>,
}

/// Mathematical image of a [`Channel`]: the history as message records and
/// the subscribers as their connection identities, both in order.
#[verifier::ext_equal]
pub ghost struct ChannelView {
    pub history: Seq<ChatMessageView>,
    pub subscribers: Seq<u64>,
}

impl View for Channel {
    type V = ChannelView;

    open spec fn view(&self) -> ChannelView {
        ChannelView {
            history: self.history@.map_values(|m: ChatMessage| m@),
            subscribers: self.subscribers@.map_values(|e: Endpoint| e@),
        }
    }
}

impl Channel {
    /// An empty room: no history, no subscribers.
    fn new() -> (r: Channel)
        ensures
            r@.history == Seq::<ChatMessageView>::empty(),
            r@.subscribers == Seq::<u64>::empty(),
    {
        let r = Channel { history: Vec::new(), subscribers: Vec::new() };
        proof {
            assert(r@.history =~= Seq::<ChatMessageView>::empty());
            assert(r@.subscribers =~= Seq::<u64>::empty());
        }
        r
    }
}

/// The image of a channel that was just created.
pub open spec fn empty_channel() -> ChannelView {
    ChannelView { history: Seq::empty(), subscribers: Seq::empty() }
}

/// A channel image assembled from its two components.
pub open spec fn channel_with(history: Seq<ChatMessageView>, subscribers: Seq<u64>) -> ChannelView {
    ChannelView { history, subscribers }
}

/// `subs` with every occurrence of the connection identity `id` removed,
/// order of the rest preserved.
pub open spec fn without_id(subs: Seq<u64>, id: u64) -> Seq<u64> {
    subs.filter(|x: u64| x != id)
}

/// The subscribers that survive one fan-out: element `i` of `subs` is kept
/// exactly where `keep[i]` is true, order preserved.
pub open spec fn masked(subs: Seq<u64>, keep: Seq<bool>) -> Seq<u64>
    recommends
        keep.len() == subs.len(),
    decreases subs.len(),
{
    if subs.len() == 0 {
        Seq::empty()
    } else {
        let rest = masked(subs.drop_last(), keep.drop_last());
        if keep.last() {
            rest.push(subs.last())
        } else {
            rest
        }
    }
}

/// Removal by identity distributes over appending one element.
proof fn lemma_without_push(s: Seq<u64>, x: u64, id: u64)
    ensures
        without_id(s.push(x), id) == if x != id {
            without_id(s, id).push(x)
        } else {
            without_id(s, id)
        },
{
    reveal(Seq::filter);
    assert(s.push(x).drop_last() =~= s);
    assert(s.push(x).last() == x);
}

/// Removing an identity that is not subscribed changes nothing.
pub proof fn lemma_without_absent_id(subs: Seq<u64>, id: u64)
    requires
        !subs.contains(id),
    ensures
        without_id(subs, id) == subs,
    decreases subs.len(),
{
    reveal(Seq::filter);
    if subs.len() == 0 {
        assert(without_id(subs, id) =~= subs);
    } else {
        assert(!subs.drop_last().contains(id)) by {
            if subs.drop_last().contains(id) {
                let i = choose|i: int|
                    0 <= i < subs.drop_last().len() && subs.drop_last()[i] == id;
                assert(subs[i] == id);
            }
        }
        lemma_without_absent_id(subs.drop_last(), id);
        assert(subs.last() != id) by {
            if subs.last() == id {
                assert(subs[subs.len() - 1] == id);
            }
        }
        assert(without_id(subs, id) =~= subs.drop_last().push(subs.last()));
        assert(subs.drop_last().push(subs.last()) =~= subs);
    }
}

/// A fan-out invents no subscriber: every survivor was already subscribed,
/// and the count never grows.
pub proof fn lemma_masked_within(subs: Seq<u64>, keep: Seq<bool>)
    ensures
        masked(subs, keep).len() <= subs.len(),
        forall|x: u64| masked(subs, keep).contains(x) ==> subs.contains(x),
    decreases subs.len(),
{
    if subs.len() == 0 {
    } else {
        lemma_masked_within(subs.drop_last(), keep.drop_last());
        let rest = masked(subs.drop_last(), keep.drop_last());
        assert forall|x: u64| masked(subs, keep).contains(x) implies subs.contains(x) by {
            if keep.last() && x == subs.last() {
                assert(subs[subs.len() - 1] == x);
            } else {
                let m = masked(subs, keep);
                let i = choose|i: int| 0 <= i < m.len() && m[i] == x;
                assert(rest[i] == x);
                assert(rest.contains(x));
                assert(subs.drop_last().contains(x));
                let j = choose|j: int|
                    0 <= j < subs.drop_last().len() && subs.drop_last()[j] == x;
                assert(subs[j] == x);
            }
        }
    }
}

/// Owner of the name-to-channel mapping. Every mutation of any channel goes
/// through one of its operations.
pub struct ChannelManager {
    entries: Vec<(String, Channel)>,
}

impl ChannelManager {
    /// Abstract state: the channel names with their channel contents, in
    /// creation order.
    pub closed spec fn state(&self) -> Seq<(Seq<char>, ChannelView)> {
        self.entries@.map_values(|e: (String, Channel)| (e.0@, e.1@))
    }

    /// The known channel names, in creation order.
    pub open spec fn names(&self) -> Seq<Seq<char>> {
        Seq::new(self.state().len(), |i: int| self.state()[i].0)
    }

    /// Whether a channel of this name exists.
    pub open spec fn has_channel(&self, name: Seq<char>) -> bool {
        self.names().contains(name)
    }

    /// The position of the channel of this name (meaningful under [`Self::wf`]
    /// when the channel exists).
    pub open spec fn index_of(&self, name: Seq<char>) -> int {
        self.names().index_of(name)
    }

    /// The channel of this name.
    pub open spec fn channel_of(&self, name: Seq<char>) -> ChannelView {
        self.state()[self.index_of(name)].1
    }

    /// The message history of this channel, oldest first.
    pub open spec fn history_of(&self, name: Seq<char>) -> Seq<ChatMessageView> {
        self.channel_of(name).history
    }

    /// The connection identities subscribed to this channel, in join order.
    pub open spec fn subs_of(&self, name: Seq<char>) -> Seq<u64> {
        self.channel_of(name).subscribers
    }

    /// The frames a joiner of this channel is replayed: the full history,
    /// encoded, oldest first.
    pub open spec fn replay_of(&self, name: Seq<char>) -> Seq<Seq<char>> {
        self.history_of(name).map_values(|m: ChatMessageView| encoded_of(name, m))
    }

    /// Well-formed: no two entries share a name, so each name denotes at
    /// most one channel.
    pub open spec fn wf(&self) -> bool {
        forall|i: int, j: int|
            0 <= i < j < self.state().len() ==> self.state()[i].0 != self.state()[j].0
    }

    /// Under [`Self::wf`], an entry holding `name` at position `i` is the one
    /// and only entry [`Self::index_of`] points at.
    pub proof fn lemma_index_of_name(&self, name: Seq<char>, i: int)
        requires
            self.wf(),
            0 <= i < self.state().len(),
            self.state()[i].0 == name,
        ensures
            self.has_channel(name),
            self.index_of(name) == i,
    {
        assert(self.names()[i] == name);
        assert(self.names().contains(name));
        let j = self.index_of(name);
        assert(0 <= j < self.names().len() && self.names()[j] == name);
        if i < j {
            assert(self.state()[i].0 != self.state()[j].0);
        } else if j < i {
            assert(self.state()[j].0 != self.state()[i].0);
        }
    }

    /// A fresh registry: no channels at all.
    pub fn new() -> (r: ChannelManager)
        ensures
            r.wf(),
            r.state() == Seq::<(Seq<char>, ChannelView)>::empty(),
    {
        let r = ChannelManager { entries: Vec::new() };
        proof {
            assert(r.state() =~= Seq::<(Seq<char>, ChannelView)>::empty());
        }
        r
    }

    /// Position of the entry named `name`, if any.
    fn find_index(&self, name: &String) -> (r: Option<usize>)
        ensures
            match r {
                Some(i) => i < self.state().len() && self.state()[i as int].0 == name@,
                None => !self.has_channel(name@),
            },
    {
        let mut i: usize = 0;
        while i < self.entries.len()
            invariant
                i <= self.entries@.len(),
                forall|k: int| 0 <= k < i ==> self.state()[k].0 != name@,
            decreases self.entries@.len() - i,
        {
            if self.entries[i].0 == *name {
                return Some(i);
            }
            i += 1;
        }
        proof {
            assert(forall|k: int|
                0 <= k < self.names().len() ==> self.names()[k] == self.state()[k].0);
        }
        None
    }

    /// Creates the channel of this name if it is absent; a repeat request is
    /// a no-op returning the same registry state.
    pub fn get_or_create_channel(&mut self, name: String)
        requires
            old(self).wf(),
        ensures
            final(self).wf(),
            final(self).has_channel(name@),
            old(self).has_channel(name@) ==> final(self).state() == old(self).state(),
            !old(self).has_channel(name@) ==> final(self).state() == old(self).state().push(
                (name@, empty_channel()),
            ),
            !old(self).has_channel(name@) ==> final(self).names() == old(self).names().push(name@),
            old(self).has_channel(name@) ==> final(self).names() == old(self).names(),
            final(self).history_of(name@) == (if old(self).has_channel(name@) {
                old(self).history_of(name@)
            } else {
                Seq::<ChatMessageView>::empty()
            }),
            final(self).subs_of(name@) == (if old(self).has_channel(name@) {
                old(self).subs_of(name@)
            } else {
                Seq::<u64>::empty()
            }),
            forall|n: Seq<char>| #![auto]
                n != name@ && old(self).has_channel(n) ==> final(self).has_channel(n) && final(self).channel_of(n) == old(self).channel_of(n),
    {
        let found = self.find_index(&name);
        match found {
            Some(i) => {
                proof {
                    self.lemma_index_of_name(name@, i as int);
                }
            },
            None => {
                let ghost pre_self = *self;
                let ghost pre = self.state();
                let ghost pre_names = self.names();
                self.entries.push((name, Channel::new()));
                proof {
                    let n = pre.len() as int;
                    assert(self.state() =~~= pre.push((name@, empty_channel())));
                    assert(self.names()[n] == name@);
                    assert(self.has_channel(name@));
                    assert forall|i: int, j: int|
                        0 <= i < j < self.state().len() implies self.state()[i].0
                        != self.state()[j].0 by {
                        if j < n {
                            assert(pre[i].0 != pre[j].0);
                        } else {
                            assert(pre_names[i] == pre[i].0);
                            if pre[i].0 == name@ {
                                assert(pre_names.contains(name@));
                            }
                        }
                    }
                    lemma_push_preserves_others(pre_self, *self, name@);
                }
            },
        }
    }

    /// A point-in-time snapshot of every known channel name, each exactly
    /// once, including channels that are currently empty.
    pub fn get_active_rooms(&self) -> (rooms: Vec<String>)
        requires
            self.wf(),
        ensures
            rooms@.map_values(|s: String| s@) == self.names(),
            forall|i: int, j: int| 0 <= i < j < rooms@.len() ==> rooms@[i]@ != rooms@[j]@,
    {
        let mut rooms: Vec<String> = Vec::new();
        let mut i: usize = 0;
        while i < self.entries.len()
            invariant
                self.wf(),
                i <= self.entries@.len(),
                rooms@.len() == i,
                forall|k: int| 0 <= k < i ==> rooms@[k]@ == self.state()[k].0,
            decreases self.entries@.len() - i,
        {
            rooms.push(self.entries[i].0.clone());
            i += 1;
        }
        proof {
            assert(rooms@.map_values(|s: String| s@) =~= self.names());
        }
        rooms
    }

    /// The encoded history of the entry at `idx`, oldest first.
    fn encode_history(&self, idx: usize) -> (frames: Vec<String>)
        requires
            idx < self.state().len(),
        ensures
            frames@.map_values(|f: String| f@) == self.state()[idx as int].1.history.map_values(
                |m: ChatMessageView| encoded_of(self.state()[idx as int].0, m),
            ),
    {
        let mut frames: Vec<String> = Vec::new();
        let mut j: usize = 0;
        let ghost hist = self.state()[idx as int].1.history;
        let ghost nm = self.state()[idx as int].0;
        while j < self.entries[idx].1.history.len()
            invariant
                idx < self.entries@.len(),
                hist == self.state()[idx as int].1.history,
                nm == self.state()[idx as int].0,
                j <= hist.len(),
                hist.len() == self.entries@[idx as int].1.history@.len(),
                frames@.len() == j,
                forall|k: int| 0 <= k < j ==> frames@[k]@ == encoded_of(nm, hist[k]),
            decreases hist.len() - j,
        {
            let m = &self.entries[idx].1.history[j];
            let frame = encode_message(
                self.entries[idx].0.as_str(),
                m.sender.as_str(),
                m.content.as_str(),
                m.timestamp,
            );
            proof {
                assert(m@ == hist[j as int]);
            }
            frames.push(frame);
            j += 1;
        }
        proof {
            assert(frames@.map_values(|f: String| f@) =~= hist.map_values(
                |m: ChatMessageView| encoded_of(nm, m),
            ));
        }
        frames
    }

    /// The exact frames a joiner of `name` is replayed, oldest first: the
    /// channel's full history, each entry individually encoded. Empty when
    /// the channel does not exist.
    pub fn replay_frames(&self, name: &String) -> (frames: Vec<String>)
        requires
            self.wf(),
        ensures
            self.has_channel(name@) ==> frames@.map_values(|f: String| f@) == self.replay_of(
                name@,
            ),
            !self.has_channel(name@) ==> frames@.len() == 0,
    {
        let found = self.find_index(name);
        match found {
            None => Vec::new(),
            Some(idx) => {
                proof {
                    self.lemma_index_of_name(name@, idx as int);
                }
                let frames = self.encode_history(idx);
                proof {
                    assert(frames@.map_values(|f: String| f@) =~= self.replay_of(name@));
                }
                frames
            },
        }
    }

    /// Subscribes `sender` to the channel, then replays the channel's full
    /// history to that endpoint alone, oldest first, one frame per message.
    /// Returns `true` when every history frame was accepted and the endpoint
    /// is now subscribed. If a frame is refused (the connection is already
    /// gone), the endpoint is treated as dead: it is not subscribed, the
    /// replay stops, and `false` reports the failure to this caller alone —
    /// the rest of the registry is untouched. `false` also reports a request
    /// for a channel that does not exist.
    pub fn add_sender_to_channel(&mut self, name: String, sender: Endpoint) -> (ok: bool)
        requires
            old(self).wf(),
        ensures
            final(self).wf(),
            !old(self).has_channel(name@) ==> final(self).state() == old(self).state() && !ok,
            old(self).has_channel(name@) && !ok ==> final(self).state() == old(self).state(),
            old(self).has_channel(name@) && ok ==> final(self).state() == old(self).state().update(
                old(self).index_of(name@),
                (
                    name@,
                    channel_with(
                        old(self).history_of(name@),
                        old(self).subs_of(name@).push(sender@),
                    ),
                ),
            ),
            old(self).has_channel(name@) ==> final(self).names() == old(self).names() && final(self).history_of(name@) == old(self).history_of(name@) && final(self).subs_of(name@) == (
            if ok {
                old(self).subs_of(name@).push(sender@)
            } else {
                old(self).subs_of(name@)
            }) && (forall|n: Seq<char>| #![auto]
                n != name@ && old(self).has_channel(n) ==> final(self).channel_of(n) == old(self).channel_of(n)),
            (old(self).has_channel(name@) && old(self).history_of(name@).len() == 0) ==> ok,
    {
        let found = self.find_index(&name);
        let idx = match found {
            None => {
                return false;
            },
            Some(i) => i,
        };
        proof {
            self.lemma_index_of_name(name@, idx as int);
        }
        let frames = self.encode_history(idx);
        let mut j: usize = 0;
        let mut alive = true;
        while alive && j < frames.len()
            invariant
                j <= frames@.len(),
                frames@.len() == 0 ==> alive,
            decreases frames@.len() - j,
        {
            alive = sender.deliver(frames[j].clone());
            j += 1;
        }
        proof {
            if self.history_of(name@).len() == 0 {
                assert(frames@.map_values(|f: String| f@).len() == 0);
                assert(frames@.len() == 0);
            }
        }
        if !alive {
            return false;
        }
        let ghost pre = self.state();
        let entry = self.entries.remove(idx);
        let (nm, ch) = entry;
        let Channel { history, mut subscribers } = ch;
        subscribers.push(sender);
        self.entries.insert(idx, (nm, Channel { history, subscribers }));
        proof {
            assert(self.state() =~~= pre.update(
                idx as int,
                (
                    name@,
                    channel_with(pre[idx as int].1.history, pre[idx as int].1.subscribers.push(
                        sender@,
                    )),
                ),
            ));
            lemma_update_keeps_wf(*old(self), *self, name@, idx as int);
            lemma_update_preserves_others(
                *old(self),
                *self,
                name@,
                channel_with(pre[idx as int].1.history, pre[idx as int].1.subscribers.push(
                    sender@,
                )),
            );
        }
        true
    }

    /// Unsubscribes `sender`'s connection from the channel, comparing by the
    /// endpoint's stable identity. A no-op when the channel does not exist
    /// or the connection was never subscribed to it.
    pub fn remove_sender_from_channel(&mut self, name: String, sender: &Endpoint)
        requires
            old(self).wf(),
        ensures
            final(self).wf(),
            !old(self).has_channel(name@) ==> final(self).state() == old(self).state(),
            old(self).has_channel(name@) ==> final(self).state() == old(self).state().update(
                old(self).index_of(name@),
                (
                    name@,
                    channel_with(
                        old(self).history_of(name@),
                        without_id(old(self).subs_of(name@), sender@),
                    ),
                ),
            ),
            (old(self).has_channel(name@) && !old(self).subs_of(name@).contains(sender@))
                ==> final(self).state() == old(self).state(),
            old(self).has_channel(name@) ==> final(self).names() == old(self).names() && final(self).history_of(name@) == old(self).history_of(name@) && final(self).subs_of(name@)
                == without_id(old(self).subs_of(name@), sender@) && (forall|n: Seq<char>| #![auto]
                n != name@ && old(self).has_channel(n) ==> final(self).channel_of(n) == old(self).channel_of(n)),
    {
        let found = self.find_index(&name);
        let idx = match found {
            None => {
                return ;
            },
            Some(i) => i,
        };
        proof {
            self.lemma_index_of_name(name@, idx as int);
        }
        let ghost pre = self.state();
        let target = sender.id();
        let entry = self.entries.remove(idx);
        let (nm, ch) = entry;
        let Channel { history, subscribers } = ch;
        let ghost all = subscribers@;
        let ghost sv = all.map_values(|e: Endpoint| e@);
        let mut rest = subscribers;
        let mut kept: Vec<Endpoint> = Vec::new();
        while rest.len() > 0
            invariant
                rest@.len() <= all.len(),
                rest@ == all.skip(all.len() - rest@.len()),
                sv == all.map_values(|e: Endpoint| e@),
                target == sender@,
                kept@.map_values(|e: Endpoint| e@) == without_id(
                    sv.take(all.len() - rest@.len()),
                    target,
                ),
            decreases rest@.len(),
        {
            let ghost k: int = all.len() - rest@.len();
            let e = rest.remove(0);
            proof {
                assert(e == all[k]);
                assert(rest@ =~= all.skip(k + 1));
                assert(sv.take(k + 1) =~= sv.take(k).push(sv[k]));
                lemma_without_push(sv.take(k), sv[k], target);
            }
            let eid = e.id();
            if eid != target {
                kept.push(e);
            }
            proof {
                assert(kept@.map_values(|e: Endpoint| e@) =~= without_id(sv.take(k + 1), target));
            }
        }
        proof {
            assert(sv.take(all.len() as int) =~= sv);
        }
        self.entries.insert(idx, (nm, Channel { history, subscribers: kept }));
        proof {
            assert(self.state() =~~= pre.update(
                idx as int,
                (name@, channel_with(pre[idx as int].1.history, without_id(sv, sender@))),
            ));
            lemma_update_keeps_wf(*old(self), *self, name@, idx as int);
            lemma_update_preserves_others(
                *old(self),
                *self,
                name@,
                channel_with(pre[idx as int].1.history, without_id(sv, sender@)),
            );
            if !old(self).subs_of(name@).contains(sender@) {
                lemma_without_absent_id(sv, sender@);
                assert(self.state() =~~= pre);
            }
        }
    }

    /// Constructs the message record at `timestamp`, appends it to the
    /// channel's history — exactly once, however many deliveries succeed —
    /// then fans the encoded frame out to every subscriber, silently pruning
    /// each subscriber whose queue is gone. A no-op when the channel does
    /// not exist. No outcome of any delivery can fail this operation.
    pub fn broadcast_message_at(
        &mut self,
        name: String,
        sender_name: String,
        content: String,
        timestamp: u64,
    )
        requires
            old(self).wf(),
        ensures
            final(self).wf(),
            !old(self).has_channel(name@) ==> final(self).state() == old(self).state(),
            old(self).has_channel(name@) ==> exists|keep: Seq<bool>|
                keep.len() == old(self).subs_of(name@).len() && final(self).state() == old(self).state().update(
                    old(self).index_of(name@),
                    (
                        name@,
                        channel_with(
                            old(self).history_of(name@).push(
                                message_view(sender_name@, content@, timestamp),
                            ),
                            masked(old(self).subs_of(name@), keep),
                        ),
                    ),
                ),
            old(self).has_channel(name@) ==> final(self).names() == old(self).names() && final(self).history_of(name@) == old(self).history_of(name@).push(
                message_view(sender_name@, content@, timestamp),
            ) && (exists|keep: Seq<bool>|
                keep.len() == old(self).subs_of(name@).len() && final(self).subs_of(name@)
                    == masked(old(self).subs_of(name@), keep)) && (forall|n: Seq<char>| #![auto]
                n != name@ && old(self).has_channel(n) ==> final(self).channel_of(n) == old(self).channel_of(n)),
    {
        let found = self.find_index(&name);
        let idx = match found {
            None => {
                return ;
            },
            Some(i) => i,
        };
        proof {
            self.lemma_index_of_name(name@, idx as int);
        }
        let ghost pre = self.state();
        let ghost msg = message_view(sender_name@, content@, timestamp);
        let frame = encode_message(
            name.as_str(),
            sender_name.as_str(),
            content.as_str(),
            timestamp,
        );
        let entry = self.entries.remove(idx);
        let (nm, ch) = entry;
        let Channel { mut history, subscribers } = ch;
        history.push(ChatMessage { sender: sender_name, content, timestamp });
        proof {
            assert(history@.map_values(|m: ChatMessage| m@) =~= pre[idx as int].1.history.push(
                msg,
            ));
        }
        let ghost all = subscribers@;
        let ghost sv = all.map_values(|e: Endpoint| e@);
        let mut rest = subscribers;
        let mut kept: Vec<Endpoint> = Vec::new();
        let ghost mut keep: Seq<bool> = Seq::empty();
        while rest.len() > 0
            invariant
                rest@.len() <= all.len(),
                rest@ == all.skip(all.len() - rest@.len()),
                sv == all.map_values(|e: Endpoint| e@),
                keep.len() == all.len() - rest@.len(),
                kept@.map_values(|e: Endpoint| e@) == masked(
                    sv.take(all.len() - rest@.len()),
                    keep,
                ),
            decreases rest@.len(),
        {
            let ghost k: int = all.len() - rest@.len();
            let e = rest.remove(0);
            proof {
                assert(e == all[k]);
                assert(rest@ =~= all.skip(k + 1));
                assert(sv.take(k + 1) =~= sv.take(k).push(sv[k]));
            }
            let accepted = e.deliver(frame.clone());
            if accepted {
                kept.push(e);
            }
            proof {
                let keep0 = keep;
                keep = keep.push(accepted);
                assert(sv.take(k + 1).drop_last() =~= sv.take(k));
                assert(keep.drop_last() =~= keep0);
                assert(masked(sv.take(k + 1), keep) == if accepted {
                    masked(sv.take(k), keep0).push(sv[k])
                } else {
                    masked(sv.take(k), keep0)
                });
                assert(kept@.map_values(|e: Endpoint| e@) =~= masked(sv.take(k + 1), keep));
            }
        }
        proof {
            assert(sv.take(all.len() as int) =~= sv);
        }
        self.entries.insert(idx, (nm, Channel { history, subscribers: kept }));
        proof {
            assert(self.state() =~~= pre.update(
                idx as int,
                (name@, channel_with(pre[idx as int].1.history.push(msg), masked(sv, keep))),
            ));
            lemma_update_keeps_wf(*old(self), *self, name@, idx as int);
            lemma_update_preserves_others(
                *old(self),
                *self,
                name@,
                channel_with(pre[idx as int].1.history.push(msg), masked(sv, keep)),
            );
            assert(exists|k2: Seq<bool>|
                k2.len() == old(self).subs_of(name@).len() && self.subs_of(name@) == masked(
                    old(self).subs_of(name@),
                    k2,
                )) by {
                assert(keep.len() == old(self).subs_of(name@).len() && self.subs_of(name@)
                    == masked(old(self).subs_of(name@), keep));
            }
            assert(keep.len() == old(self).subs_of(name@).len());
            assert(exists|k2: Seq<bool>|
                k2.len() == old(self).subs_of(name@).len() && self.state() == old(self).state().update(
                    old(self).index_of(name@),
                    (
                        name@,
                        channel_with(
                            old(self).history_of(name@).push(msg),
                            masked(old(self).subs_of(name@), k2),
                        ),
                    ),
                )) by {
                assert(keep.len() == old(self).subs_of(name@).len() && self.state() == old(self).state().update(
                    old(self).index_of(name@),
                    (
                        name@,
                        channel_with(
                            old(self).history_of(name@).push(msg),
                            masked(old(self).subs_of(name@), keep),
                        ),
                    ),
                ));
            }
        }
    }

    /// How many messages the channel's history holds; zero when the channel
    /// does not exist.
    pub fn history_len(&self, name: &String) -> (n: usize)
        requires
            self.wf(),
        ensures
            self.has_channel(name@) ==> n == self.history_of(name@).len(),
            !self.has_channel(name@) ==> n == 0,
    {
        let found = self.find_index(name);
        match found {
            None => 0,
            Some(idx) => {
                proof {
                    self.lemma_index_of_name(name@, idx as int);
                }
                self.entries[idx].1.history.len()
            },
        }
    }

    /// One history entry, as its plain parts: sender, content, timestamp.
    /// `None` when the channel does not exist or `i` is out of range.
    pub fn history_entry(&self, name: &String, i: usize) -> (r: Option<(String, String, u64)>)
        requires
            self.wf(),
        ensures
            match r {
                Some(entry) => self.has_channel(name@) && i < self.history_of(name@).len() && entry.0@
                    == self.history_of(name@)[i as int].sender && entry.1@ == self.history_of(
                    name@,
                )[i as int].content && entry.2 == self.history_of(name@)[i as int].timestamp,
                None => !self.has_channel(name@) || i >= self.history_of(name@).len(),
            },
    {
        let found = self.find_index(name);
        match found {
            None => None,
            Some(idx) => {
                proof {
                    self.lemma_index_of_name(name@, idx as int);
                }
                if i < self.entries[idx].1.history.len() {
                    let m = &self.entries[idx].1.history[i];
                    Some((m.sender.clone(), m.content.clone(), m.timestamp))
                } else {
                    None
                }
            },
        }
    }

    /// The identities subscribed to the channel, in join order; empty when
    /// the channel does not exist.
    pub fn subscriber_ids(&self, name: &String) -> (ids: Vec<u64>)
        requires
            self.wf(),
        ensures
            self.has_channel(name@) ==> ids@ == self.subs_of(name@),
            !self.has_channel(name@) ==> ids@.len() == 0,
    {
        let mut ids: Vec<u64> = Vec::new();
        let found = self.find_index(name);
        match found {
            None => ids,
            Some(idx) => {
                proof {
                    self.lemma_index_of_name(name@, idx as int);
                }
                let mut j: usize = 0;
                while j < self.entries[idx].1.subscribers.len()
                    invariant
                        idx < self.entries@.len(),
                        j <= self.entries@[idx as int].1.subscribers@.len(),
                        ids@.len() == j,
                        forall|k: int| #![auto]
                            0 <= k < j ==> ids@[k] == self.entries@[idx as int].1.subscribers@[k]@,
                    decreases self.entries@[idx as int].1.subscribers@.len() - j,
                {
                    ids.push(self.entries[idx].1.subscribers[j].id());
                    j += 1;
                }
                proof {
                    assert(ids@ =~= self.state()[idx as int].1.subscribers);
                }
                ids
            },
        }
    }

    /// Broadcasts at the current wall-clock instant: reads the clock once,
    /// stamps the message with it, and otherwise behaves exactly as
    /// [`Self::broadcast_message_at`] at that time.
    pub fn broadcast_message(&mut self, name: String, sender_name: String, content: String)
        requires
            old(self).wf(),
        ensures
            final(self).wf(),
            !old(self).has_channel(name@) ==> final(self).state() == old(self).state(),
            old(self).has_channel(name@) ==> exists|timestamp: u64, keep: Seq<bool>|
                keep.len() == old(self).subs_of(name@).len() && final(self).state() == old(self).state().update(
                    old(self).index_of(name@),
                    (
                        name@,
                        channel_with(
                            old(self).history_of(name@).push(
                                message_view(sender_name@, content@, timestamp),
                            ),
                            masked(old(self).subs_of(name@), keep),
                        ),
                    ),
                ),
            old(self).has_channel(name@) ==> final(self).names() == old(self).names() && (exists|
                timestamp: u64,
            |
                final(self).history_of(name@) == old(self).history_of(name@).push(
                    message_view(sender_name@, content@, timestamp),
                )) && (exists|keep: Seq<bool>|
                keep.len() == old(self).subs_of(name@).len() && final(self).subs_of(name@)
                    == masked(old(self).subs_of(name@), keep)) && (forall|n: Seq<char>| #![auto]
                n != name@ && old(self).has_channel(n) ==> final(self).channel_of(n) == old(self).channel_of(n)),
    {
        let ghost nmv = name@;
        let ghost snv = sender_name@;
        let ghost ctv = content@;
        let ts = now_epoch_seconds();
        self.broadcast_message_at(name, sender_name, content, ts);
        proof {
            if old(self).has_channel(nmv) {
                assert(exists|timestamp: u64|
                    self.history_of(nmv) == old(self).history_of(nmv).push(
                        message_view(snv, ctv, timestamp),
                    )) by {
                    assert(self.history_of(nmv) == old(self).history_of(nmv).push(
                        message_view(snv, ctv, ts),
                    ));
                }
                let keep = choose|keep: Seq<bool>|
                    keep.len() == old(self).subs_of(nmv).len() && self.state() == old(self).state().update(
                        old(self).index_of(nmv),
                        (
                            nmv,
                            channel_with(
                                old(self).history_of(nmv).push(message_view(snv, ctv, ts)),
                                masked(old(self).subs_of(nmv), keep),
                            ),
                        ),
                    );
                assert(exists|timestamp: u64, keep2: Seq<bool>|
                    keep2.len() == old(self).subs_of(nmv).len() && self.state() == old(self).state().update(
                        old(self).index_of(nmv),
                        (
                            nmv,
                            channel_with(
                                old(self).history_of(nmv).push(message_view(snv, ctv, timestamp)),
                                masked(old(self).subs_of(nmv), keep2),
                            ),
                        ),
                    )) by {
                    assert(keep.len() == old(self).subs_of(nmv).len() && self.state() == old(self).state().update(
                        old(self).index_of(nmv),
                        (
                            nmv,
                            channel_with(
                                old(self).history_of(nmv).push(message_view(snv, ctv, ts)),
                                masked(old(self).subs_of(nmv), keep),
                            ),
                        ),
                    ));
                }
            }
        }
    }
}

/// Relies on `std::time::SystemTime::now`, which never panics, on
/// `SystemTime::duration_since`, which returns `Err` exactly when the first
/// clock reading is earlier than the epoch handed to it, and on
/// `Duration::as_secs`: the wall clock as whole seconds since the Unix epoch
/// (UTC), or `None` on a machine whose clock is set before the epoch. No
/// path panics. Nothing is promised of the value — what time it is depends
/// on the machine.
#[verifier::external_body]
fn clock_epoch_seconds() -> (r: Option<u64>) {
    match std::time::SystemTime::now().duration_since(std::time::UNIX_EPOCH) {
        Ok(d) => Some(d.as_secs()),
        Err(_) => None,
    }
}

/// The wall clock as whole seconds since the Unix epoch (UTC); a clock set
/// before the epoch reads as the epoch itself.
fn now_epoch_seconds() -> u64 {
    match clock_epoch_seconds() {
        Some(s) => s,
        None => 0,
    }
}

/// Replacing the channel of one name leaves every other channel, and the
/// whole list of names, exactly as it was.
pub proof fn lemma_update_preserves_others(
    pre: ChannelManager,
    post: ChannelManager,
    name: Seq<char>,
    cv: ChannelView,
)
    requires
        pre.wf(),
        pre.has_channel(name),
        post.state() == pre.state().update(pre.index_of(name), (name, cv)),
    ensures
        post.wf(),
        post.names() == pre.names(),
        post.has_channel(name),
        post.index_of(name) == pre.index_of(name),
        post.channel_of(name) == cv,
        forall|n: Seq<char>| #![auto] n != name ==> post.has_channel(n) == pre.has_channel(n),
        forall|n: Seq<char>| #![auto]
            n != name && pre.has_channel(n) ==> post.channel_of(n) == pre.channel_of(n),
{
    let i = pre.index_of(name);
    assert(0 <= i < pre.state().len() && pre.names()[i] == name);
    assert(post.names() =~= pre.names());
    pre.lemma_index_of_name(name, i);
    post.lemma_index_of_name(name, i);
    assert forall|n: Seq<char>| #![auto]
        n != name && pre.has_channel(n) implies post.channel_of(n) == pre.channel_of(n) by {
        let j = pre.index_of(n);
        assert(0 <= j < pre.state().len() && pre.names()[j] == n);
        assert(j != i);
        assert(post.state()[j] == pre.state()[j]);
        pre.lemma_index_of_name(n, j);
        post.lemma_index_of_name(n, j);
    }
}

/// Creating one channel under a fresh name leaves every existing channel
/// unchanged, and the new channel reads back empty.
pub proof fn lemma_push_preserves_others(pre: ChannelManager, post: ChannelManager, name: Seq<char>)
    requires
        pre.wf(),
        !pre.has_channel(name),
        post.state() == pre.state().push((name, empty_channel())),
    ensures
        post.names() == pre.names().push(name),
        post.has_channel(name),
        post.index_of(name) == pre.state().len(),
        post.channel_of(name) == empty_channel(),
        forall|n: Seq<char>| #![auto]
            n != name && pre.has_channel(n) ==> post.has_channel(n) && post.channel_of(n)
                == pre.channel_of(n),
        forall|n: Seq<char>| #![auto] n != name && !pre.has_channel(n) ==> !post.has_channel(n),
{
    assert(post.names() =~= pre.names().push(name));
    assert forall|i: int, j: int|
        0 <= i < j < post.state().len() implies post.state()[i].0 != post.state()[j].0 by {
        if j < pre.state().len() {
            assert(pre.state()[i].0 != pre.state()[j].0);
        } else {
            assert(pre.names()[i] == pre.state()[i].0);
            if pre.state()[i].0 == name {
                assert(pre.names().contains(name));
            }
        }
    }
    post.lemma_index_of_name(name, pre.state().len() as int);
    assert forall|n: Seq<char>| #![auto]
        n != name && pre.has_channel(n) implies post.has_channel(n) && post.channel_of(n)
        == pre.channel_of(n) by {
        let j = pre.index_of(n);
        assert(0 <= j < pre.state().len() && pre.names()[j] == n);
        assert(post.names()[j] == n);
        assert(post.names().contains(n));
        pre.lemma_index_of_name(n, j);
        post.lemma_index_of_name(n, j);
    }
    assert forall|n: Seq<char>| #![auto]
        n != name && !pre.has_channel(n) implies !post.has_channel(n) by {
        if post.has_channel(n) {
            let j = post.index_of(n);
            assert(0 <= j < post.names().len() && post.names()[j] == n);
            assert(j < pre.state().len());
            assert(pre.names()[j] == n);
            assert(pre.names().contains(n));
        }
    }
}

/// A joiner is replayed exactly what was broadcast to the channel before the
/// join, in order: one more broadcast extends the next joiner's replay by
/// exactly that message's frame and touches no earlier entry, so a message
/// broadcast after a join is in no earlier joiner's replay.
pub proof fn lemma_replay_after_broadcast(
    pre: ChannelManager,
    post: ChannelManager,
    name: Seq<char>,
    m: ChatMessageView,
)
    requires
        post.history_of(name) == pre.history_of(name).push(m),
    ensures
        post.replay_of(name) == pre.replay_of(name).push(encoded_of(name, m)),
        post.replay_of(name).len() == pre.replay_of(name).len() + 1,
        forall|i: int| #![auto]
            0 <= i < pre.replay_of(name).len() ==> post.replay_of(name)[i] == pre.replay_of(
                name,
            )[i],
{
    assert(post.replay_of(name) =~= pre.replay_of(name).push(encoded_of(name, m)));
}

/// Two broadcasts to one channel, in whatever order the registry's lock
/// granted them, leave both messages in the history: in that order, right
/// after what was already there, and every subscriber that stays through
/// both sees them appended in that same order.
pub proof fn lemma_two_broadcasts_ordered(
    h0: Seq<ChatMessageView>,
    m1: ChatMessageView,
    m2: ChatMessageView,
)
    ensures
        h0.push(m1).push(m2).len() == h0.len() + 2,
        h0.push(m1).push(m2)[h0.len() as int] == m1,
        h0.push(m1).push(m2)[h0.len() as int + 1] == m2,
        forall|i: int| 0 <= i < h0.len() ==> #[trigger] h0.push(m1).push(m2)[i] == h0[i],
{
}

/// After one entry of a well-formed registry is replaced under its own name,
/// the registry is still well-formed.
proof fn lemma_update_keeps_wf(pre: ChannelManager, post: ChannelManager, name: Seq<char>, i: int)
    requires
        pre.wf(),
        0 <= i < pre.state().len(),
        pre.state()[i].0 == name,
        post.state().len() == pre.state().len(),
        forall|k: int| 0 <= k < pre.state().len() ==> post.state()[k].0 == pre.state()[k].0,
    ensures
        post.wf(),
        post.names() == pre.names(),
{
    assert(post.names() =~= pre.names());
}

} // verus!
