//! The per-connection protocol: the command grammar of inbound frames and
//! the state machine that drives the registry from them.
//!
//! One inbound frame carries one command: `JOIN:<channel>`,
//! `LEAVE:<channel>`, `SEND:<channel>:<content>`, or `PING`. A channel name
//! is one or more characters and contains no `:`; the content of a `SEND`
//! may be empty and may itself contain `:`. Anything else is malformed and
//! is ignored without any state change.

use vstd::prelude::*;

use crate::endpoint::Endpoint;
use crate::message::{message_view, ChatMessageView};
use crate::registry::{masked, without_id, ChannelManager};

verus! {

/// One parsed client command.
pub enum Command {
    /// Subscribe to the named channel and receive its history.
    Join(String),
    /// Unsubscribe from the named channel.
    Leave(String),
    /// Broadcast content to the named channel.
    SendText(String, String),
    /// Keepalive; answered with `PONG` on the connection's own queue.
    Ping,
}

/// Mathematical image of a [`Command`].
pub ghost enum CommandView {
    Join(Seq<char>),
    Leave(Seq<char>),
    SendText(Seq<char>, Seq<char>),
    Ping,
}

impl View for Command {
    type V = CommandView;

    open spec fn view(&self) -> CommandView {
        match self {
            Command::Join(c) => CommandView::Join(c@),
            Command::Leave(c) => CommandView::Leave(c@),
            Command::SendText(c, t) => CommandView::SendText(c@, t@),
            Command::Ping => CommandView::Ping,
        }
    }
}

/// `JOIN:` — the join command's prefix.
pub open spec fn join_prefix() -> Seq<char> {
    seq!['J', 'O', 'I', 'N', ':']
}

/// `LEAVE:` — the leave command's prefix.
pub open spec fn leave_prefix() -> Seq<char> {
    seq!['L', 'E', 'A', 'V', 'E', ':']
}

/// `SEND:` — the send command's prefix.
pub open spec fn send_prefix() -> Seq<char> {
    seq!['S', 'E', 'N', 'D', ':']
}

/// `PING` — the whole keepalive frame.
pub open spec fn ping_frame() -> Seq<char> {
    seq!['P', 'I', 'N', 'G']
}

/// `PONG` — the whole keepalive reply frame.
pub open spec fn pong_frame() -> Seq<char> {
    seq!['P', 'O', 'N', 'G']
}

/// Whether `pre` is a prefix of `s`.
pub open spec fn has_prefix(s: Seq<char>, pre: Seq<char>) -> bool {
    pre.len() <= s.len() && s.take(pre.len() as int) == pre
}

/// A channel name: at least one character, none of them the separator.
pub open spec fn valid_channel_name(s: Seq<char>) -> bool {
    s.len() > 0 && forall|i: int| 0 <= i < s.len() ==> s[i] != ':'
}

/// The position of the first separator at or after `from`, if any.
pub open spec fn first_colon(s: Seq<char>, from: int) -> Option<int>
    decreases s.len() - from when 0 <= from <= s.len()
{
    if from >= s.len() {
        None
    } else if s[from] == ':' {
        Some(from)
    } else {
        first_colon(s, from + 1)
    }
}

/// What one inbound frame means: the command it carries, or nothing when it
/// is malformed.
pub open spec fn parse_spec(s: Seq<char>) -> Option<CommandView> {
    if s == ping_frame() {
        Some(CommandView::Ping)
    } else if has_prefix(s, join_prefix()) && valid_channel_name(s.skip(5)) {
        Some(CommandView::Join(s.skip(5)))
    } else if has_prefix(s, leave_prefix()) && valid_channel_name(s.skip(6)) {
        Some(CommandView::Leave(s.skip(6)))
    } else if has_prefix(s, send_prefix()) {
        let rest = s.skip(5);
        match first_colon(rest, 0) {
            Some(k) => if k > 0 {
                Some(CommandView::SendText(rest.take(k), rest.skip(k + 1)))
            } else {
                None
            },
            None => None,
        }
    } else {
        None
    }
}

/// A scan that stops at the first separator finds what [`first_colon`] names.
proof fn lemma_first_colon_found(s: Seq<char>, from: int, k: int)
    requires
        0 <= from <= k < s.len(),
        s[k] == ':',
        forall|j: int| from <= j < k ==> s[j] != ':',
    ensures
        first_colon(s, from) == Some(k),
    decreases k - from,
{
    if from < k {
        lemma_first_colon_found(s, from + 1, k);
    }
}

/// A scan that finds no separator means [`first_colon`] names none.
proof fn lemma_first_colon_none(s: Seq<char>, from: int)
    requires
        0 <= from <= s.len(),
        forall|j: int| from <= j < s.len() ==> s[j] != ':',
    ensures
        first_colon(s, from) == None::<int>,
    decreases s.len() - from,
{
    if from < s.len() {
        lemma_first_colon_none(s, from + 1);
    }
}

/// Whether the whole frame is the keepalive `PING`.
fn is_ping(frame: &str) -> (r: bool)
    ensures
        r == (frame@ == ping_frame()),
{
    let n = frame.unicode_len();
    if n != 4 {
        proof {
            if frame@ == ping_frame() {
                assert(frame@.len() == 4);
            }
        }
        return false;
    }
    let r = frame.get_char(0) == 'P' && frame.get_char(1) == 'I' && frame.get_char(2) == 'N'
        && frame.get_char(3) == 'G';
    proof {
        if r {
            assert(frame@ =~= ping_frame());
        } else {
            if frame@ == ping_frame() {
                assert(frame@[0] == 'P' && frame@[1] == 'I' && frame@[2] == 'N' && frame@[3]
                    == 'G');
            }
        }
    }
    r
}

/// Whether `s` starts with `pre`, character by character.
fn starts_with_chars(s: &str, pre: &str) -> (r: bool)
    ensures
        r == has_prefix(s@, pre@),
{
    let pn = pre.unicode_len();
    let n = s.unicode_len();
    if pn > n {
        return false;
    }
    let mut i: usize = 0;
    while i < pn
        invariant
            i <= pn,
            pn <= n,
            pn == pre@.len(),
            n == s@.len(),
            forall|k: int| 0 <= k < i ==> s@[k] == pre@[k],
        decreases pn - i,
    {
        if s.get_char(i) != pre.get_char(i) {
            proof {
                if has_prefix(s@, pre@) {
                    assert(s@.take(pn as int)[i as int] == pre@[i as int]);
                }
            }
            return false;
        }
        i += 1;
    }
    proof {
        assert(s@.take(pn as int) =~= pre@);
    }
    true
}

/// Whether `s` is a well-formed channel name.
fn is_valid_name(s: &str) -> (r: bool)
    ensures
        r == valid_channel_name(s@),
{
    let n = s.unicode_len();
    if n == 0 {
        return false;
    }
    let mut i: usize = 0;
    while i < n
        invariant
            i <= n,
            n == s@.len(),
            forall|k: int| 0 <= k < i ==> s@[k] != ':',
        decreases n - i,
    {
        if s.get_char(i) == ':' {
            return false;
        }
        i += 1;
    }
    true
}

/// Position of the first separator in `s` at or after `from`, if any.
fn find_colon(s: &str, from: usize) -> (r: Option<usize>)
    requires
        from <= s@.len(),
    ensures
        match r {
            Some(k) => first_colon(s@, from as int) == Some(k as int) && from <= k < s@.len(),
            None => first_colon(s@, from as int) == None::<int>,
        },
{
    let n = s.unicode_len();
    let mut i: usize = from;
    while i < n
        invariant
            from <= i <= n,
            n == s@.len(),
            forall|k: int| from <= k < i ==> s@[k] != ':',
        decreases n - i,
    {
        if s.get_char(i) == ':' {
            proof {
                lemma_first_colon_found(s@, from as int, i as int);
            }
            return Some(i);
        }
        i += 1;
    }
    proof {
        lemma_first_colon_none(s@, from as int);
    }
    None
}

/// Parses one inbound frame. `None` is a malformed frame, which the
/// protocol ignores without any state change.
pub fn parse_command(frame: &str) -> (r: Option<Command>)
    ensures
        match r {
            Some(c) => parse_spec(frame@) == Some(c@),
            None => parse_spec(frame@) == None::<CommandView>,
        },
{
    proof {
        reveal_strlit("JOIN:");
        reveal_strlit("LEAVE:");
        reveal_strlit("SEND:");
        assert("JOIN:"@ =~= join_prefix());
        assert("LEAVE:"@ =~= leave_prefix());
        assert("SEND:"@ =~= send_prefix());
    }
    let n = frame.unicode_len();
    if is_ping(frame) {
        return Some(Command::Ping);
    }
    if starts_with_chars(frame, "JOIN:") {
        proof {
            lemma_prefixes_disjoint(frame@);
        }
        let rest = frame.substring_char(5, n);
        if is_valid_name(rest) {
            proof {
                assert(rest@ =~= frame@.skip(5));
            }
            return Some(Command::Join(rest.to_owned()));
        } else {
            proof {
                assert(rest@ =~= frame@.skip(5));
            }
            return None;
        }
    }
    if starts_with_chars(frame, "LEAVE:") {
        proof {
            lemma_prefixes_disjoint(frame@);
        }
        let rest = frame.substring_char(6, n);
        if is_valid_name(rest) {
            proof {
                assert(rest@ =~= frame@.skip(6));
            }
            return Some(Command::Leave(rest.to_owned()));
        } else {
            proof {
                assert(rest@ =~= frame@.skip(6));
            }
            return None;
        }
    }
    if starts_with_chars(frame, "SEND:") {
        proof {
            lemma_prefixes_disjoint(frame@);
        }
        let rest = frame.substring_char(5, n);
        proof {
            assert(rest@ =~= frame@.skip(5));
        }
        let sep = find_colon(rest, 0);
        match sep {
            Some(k) => {
                if k > 0 {
                    let channel = rest.substring_char(0, k);
                    let content = rest.substring_char(k + 1, rest.unicode_len());
                    proof {
                        assert(channel@ =~= rest@.take(k as int));
                        assert(content@ =~= rest@.skip(k as int + 1));
                    }
                    return Some(Command::SendText(channel.to_owned(), content.to_owned()));
                } else {
                    return None;
                }
            },
            None => {
                return None;
            },
        }
    }
    None
}

/// `names` with every occurrence of `name` removed, order preserved.
pub open spec fn without_name(names: Seq<Seq<char>>, name: Seq<char>) -> Seq<Seq<char>> {
    names.filter(|n: Seq<char>| n != name)
}

/// Untracking a name distributes over appending one element.
proof fn lemma_without_name_push(s: Seq<Seq<char>>, x: Seq<char>, name: Seq<char>)
    ensures
        without_name(s.push(x), name) == if x != name {
            without_name(s, name).push(x)
        } else {
            without_name(s, name)
        },
{
    reveal(Seq::filter);
    assert(s.push(x).drop_last() =~= s);
    assert(s.push(x).last() == x);
}

/// Untracking one name keeps the rest distinct and invents no name.
proof fn lemma_without_name_distinct(s: Seq<Seq<char>>, name: Seq<char>)
    requires
        forall|i: int, j: int| 0 <= i < j < s.len() ==> s[i] != s[j],
    ensures
        forall|i: int, j: int| #![auto]
            0 <= i < j < without_name(s, name).len() ==> without_name(s, name)[i] != without_name(
                s,
                name,
            )[j],
        forall|x: Seq<char>| #[trigger] without_name(s, name).contains(x) ==> s.contains(x),
    decreases s.len(),
{
    reveal(Seq::filter);
    if s.len() == 0 {
    } else {
        let s0 = s.drop_last();
        assert(forall|i: int, j: int| 0 <= i < j < s0.len() ==> s0[i] != s0[j]) by {
            assert(forall|i: int| 0 <= i < s0.len() ==> s0[i] == s[i]);
        }
        lemma_without_name_distinct(s0, name);
        let w0 = without_name(s0, name);
        let w = without_name(s, name);
        assert(s0.push(s.last()) =~= s);
        lemma_without_name_push(s0, s.last(), name);
        assert forall|x: Seq<char>| #[trigger] w.contains(x) implies s.contains(x) by {
            if s.last() != name && x == s.last() {
                assert(s[s.len() - 1] == x);
            } else {
                let i = choose|i: int| 0 <= i < w.len() && w[i] == x;
                assert(w0[i] == x);
                assert(w0.contains(x));
                assert(s0.contains(x));
                let j = choose|j: int| 0 <= j < s0.len() && s0[j] == x;
                assert(s[j] == x);
            }
        }
        if s.last() != name {
            assert(!w0.contains(s.last())) by {
                if w0.contains(s.last()) {
                    assert(s0.contains(s.last()));
                    let j = choose|j: int| 0 <= j < s0.len() && s0[j] == s.last();
                    assert(s[j] == s[s.len() - 1]);
                }
            }
            assert forall|i: int, j: int| #![auto] 0 <= i < j < w.len() implies w[i] != w[j] by {
                if j < w.len() - 1 {
                    assert(w0[i] != w0[j]);
                } else {
                    assert(w[j] == s.last());
                    if w[i] == s.last() {
                        assert(w0[i] == s.last());
                        assert(w0.contains(s.last()));
                    }
                }
            }
        }
    }
}

/// No frame matches two of the four command shapes at once: the first
/// characters of `PING`, `JOIN:`, `LEAVE:` and `SEND:` all differ.
proof fn lemma_prefixes_disjoint(s: Seq<char>)
    ensures
        has_prefix(s, join_prefix()) ==> s != ping_frame() && !has_prefix(s, leave_prefix())
            && !has_prefix(s, send_prefix()),
        has_prefix(s, leave_prefix()) ==> s != ping_frame() && !has_prefix(s, join_prefix())
            && !has_prefix(s, send_prefix()),
        has_prefix(s, send_prefix()) ==> s != ping_frame() && !has_prefix(s, join_prefix())
            && !has_prefix(s, leave_prefix()),
{
    if has_prefix(s, join_prefix()) {
        assert(s.take(5)[0] == s[0]);
    }
    if has_prefix(s, leave_prefix()) {
        assert(s.take(6)[0] == s[0]);
    }
    if has_prefix(s, send_prefix()) {
        assert(s.take(5)[0] == s[0]);
    }
    if s == ping_frame() {
        assert(s[0] == 'P');
    }
}

/// One broadcast's effect on the registry, seen at `channel`: the set of
/// channels is unchanged, the channel's history grew by exactly one message
/// from `sender` with this `content` (stamped with some instant), its
/// subscribers are a kept-in-order subset of what they were, and no other
/// channel moved.
pub open spec fn broadcast_effect(
    pre: ChannelManager,
    post: ChannelManager,
    channel: Seq<char>,
    sender: Seq<char>,
    content: Seq<char>,
) -> bool {
    &&& post.names() == pre.names()
    &&& exists|timestamp: u64|
        post.history_of(channel) == pre.history_of(channel).push(
            message_view(sender, content, timestamp),
        )
    &&& exists|keep: Seq<bool>|
        keep.len() == pre.subs_of(channel).len() && post.subs_of(channel) == masked(
            pre.subs_of(channel),
            keep,
        )
    &&& forall|n: Seq<char>| #![auto]
        n != channel && pre.has_channel(n) ==> post.channel_of(n) == pre.channel_of(n)
}

/// The keepalive reply frame, `PONG`.
fn pong_reply() -> (r: String)
    ensures
        r@ == pong_frame(),
{
    let r = String::from_str("PONG");
    proof {
        reveal_strlit("PONG");
        assert(r@ =~= pong_frame());
    }
    r
}

/// One connection's protocol state: the display name its broadcasts carry,
/// its outbound endpoint, and the channels it has joined — tracked locally
/// so that a transport closure can leave them all.
///
/// A connection starts with no membership, becomes active as it joins
/// channels, and ends when its transport closes or fails: the owner then
/// calls [`ConnectionState::handle_disconnect`] once and drops the state.
pub struct ConnectionState {
    pub display_name: String,
    pub endpoint: Endpoint,
    pub joined: Vec<String>,
}

impl ConnectionState {
    /// The names of the channels this connection has joined, in join order.
    pub open spec fn joined_names(&self) -> Seq<Seq<char>> {
        self.joined@.map_values(|s: String| s@)
    }

    /// Whether this connection has joined `name`.
    pub open spec fn has_joined(&self, name: Seq<char>) -> bool {
        self.joined_names().contains(name)
    }

    /// Well-formed: no channel is tracked twice.
    pub open spec fn wf(&self) -> bool {
        forall|i: int, j: int|
            0 <= i < j < self.joined_names().len() ==> self.joined_names()[i]
                != self.joined_names()[j]
    }

    /// A freshly accepted connection: no channel joined yet.
    pub fn new(display_name: String, endpoint: Endpoint) -> (r: ConnectionState)
        ensures
            r.wf(),
            r.display_name@ == display_name@,
            r.endpoint@ == endpoint@,
            r.joined_names() == Seq::<Seq<char>>::empty(),
    {
        let r = ConnectionState { display_name, endpoint, joined: Vec::new() };
        proof {
            assert(r.joined_names() =~= Seq::<Seq<char>>::empty());
        }
        r
    }

    /// Whether `name` is among the tracked memberships.
    fn knows_channel(&self, name: &String) -> (r: bool)
        ensures
            r == self.has_joined(name@),
    {
        let mut i: usize = 0;
        while i < self.joined.len()
            invariant
                i <= self.joined@.len(),
                forall|k: int| 0 <= k < i ==> self.joined_names()[k] != name@,
            decreases self.joined@.len() - i,
        {
            if self.joined[i] == *name {
                proof {
                    assert(self.joined_names()[i as int] == name@);
                }
                return true;
            }
            i += 1;
        }
        false
    }

    /// Executes one inbound frame against the registry. `JOIN` creates the
    /// channel if needed, subscribes this connection, replays the history to
    /// it and tracks the membership; `LEAVE` unsubscribes and untracks it;
    /// `SEND` broadcasts under this connection's display name at the current
    /// instant; `PING` enqueues `PONG` on this connection's own queue; a
    /// malformed frame changes nothing. No frame, and no dead endpoint it
    /// runs into, can fail the registry or this connection.
    pub fn handle_frame(&mut self, mgr: &mut ChannelManager, frame: &str)
        requires
            old(self).wf(),
            old(mgr).wf(),
        ensures
            final(self).wf(),
            final(mgr).wf(),
            final(self).display_name@ == old(self).display_name@,
            final(self).endpoint@ == old(self).endpoint@,
            parse_spec(frame@) is None ==> final(mgr).state() == old(mgr).state()
                && final(self).joined_names() == old(self).joined_names(),
            parse_spec(frame@) matches Some(CommandView::Ping) ==> final(mgr).state()
                == old(mgr).state() && final(self).joined_names() == old(self).joined_names(),
            parse_spec(frame@) matches Some(CommandView::Join(c)) ==> {
                &&& final(self).joined_names() == (if old(self).has_joined(c) {
                    old(self).joined_names()
                } else {
                    old(self).joined_names().push(c)
                })
                &&& final(mgr).has_channel(c)
                &&& final(mgr).names() == (if old(mgr).has_channel(c) {
                    old(mgr).names()
                } else {
                    old(mgr).names().push(c)
                })
                &&& final(mgr).history_of(c) == (if old(mgr).has_channel(c) {
                    old(mgr).history_of(c)
                } else {
                    Seq::<ChatMessageView>::empty()
                })
                &&& {
                    let before = if old(mgr).has_channel(c) {
                        old(mgr).subs_of(c)
                    } else {
                        Seq::<u64>::empty()
                    };
                    final(mgr).subs_of(c) == before || final(mgr).subs_of(c) == before.push(
                        old(self).endpoint@,
                    )
                }
                &&& !old(mgr).has_channel(c) ==> final(mgr).subs_of(c)
                    == Seq::<u64>::empty().push(old(self).endpoint@)
                &&& (old(mgr).has_channel(c) && old(mgr).history_of(c).len() == 0)
                    ==> final(mgr).subs_of(c) == old(mgr).subs_of(c).push(old(self).endpoint@)
                &&& forall|n: Seq<char>| #![auto]
                    n != c && old(mgr).has_channel(n) ==> final(mgr).has_channel(n)
                        && final(mgr).channel_of(n) == old(mgr).channel_of(n)
            },
            parse_spec(frame@) matches Some(CommandView::Leave(c)) ==> {
                &&& final(self).joined_names() == without_name(old(self).joined_names(), c)
                &&& !old(mgr).has_channel(c) ==> final(mgr).state() == old(mgr).state()
                &&& old(mgr).has_channel(c) ==> final(mgr).names() == old(mgr).names()
                    && final(mgr).history_of(c) == old(mgr).history_of(c)
                    && final(mgr).subs_of(c) == without_id(
                    old(mgr).subs_of(c),
                    old(self).endpoint@,
                ) && (forall|n: Seq<char>| #![auto]
                    n != c && old(mgr).has_channel(n) ==> final(mgr).channel_of(n)
                        == old(mgr).channel_of(n))
            },
            parse_spec(frame@) matches Some(CommandView::SendText(c, t)) ==> {
                &&& final(self).joined_names() == old(self).joined_names()
                &&& !old(mgr).has_channel(c) ==> final(mgr).state() == old(mgr).state()
                &&& old(mgr).has_channel(c) ==> broadcast_effect(
                    *old(mgr),
                    *final(mgr),
                    c,
                    old(self).display_name@,
                    t,
                )
            },
    {
        let cmd = parse_command(frame);
        match cmd {
            None => {},
            Some(Command::Ping) => {
                let _ = self.endpoint.deliver(pong_reply());
            },
            Some(Command::Join(c)) => {
                self.join_channel(mgr, c);
            },
            Some(Command::Leave(c)) => {
                self.leave_channel(mgr, c);
            },
            Some(Command::SendText(c, t)) => {
                self.send_to_channel(mgr, c, t);
            },
        }
    }

    /// One `JOIN`: creates the channel when absent, subscribes this
    /// connection and replays the history to it, and tracks the membership
    /// locally (at most once).
    pub fn join_channel(&mut self, mgr: &mut ChannelManager, channel: String)
        requires
            old(self).wf(),
            old(mgr).wf(),
        ensures
            final(self).wf(),
            final(mgr).wf(),
            final(self).display_name@ == old(self).display_name@,
            final(self).endpoint@ == old(self).endpoint@,
            final(self).joined_names() == (if old(self).has_joined(channel@) {
                old(self).joined_names()
            } else {
                old(self).joined_names().push(channel@)
            }),
            final(mgr).has_channel(channel@),
            final(mgr).names() == (if old(mgr).has_channel(channel@) {
                old(mgr).names()
            } else {
                old(mgr).names().push(channel@)
            }),
            final(mgr).history_of(channel@) == (if old(mgr).has_channel(channel@) {
                old(mgr).history_of(channel@)
            } else {
                Seq::<ChatMessageView>::empty()
            }),
            ({
                let before = if old(mgr).has_channel(channel@) {
                    old(mgr).subs_of(channel@)
                } else {
                    Seq::<u64>::empty()
                };
                final(mgr).subs_of(channel@) == before || final(mgr).subs_of(channel@)
                    == before.push(old(self).endpoint@)
            }),
            !old(mgr).has_channel(channel@) ==> final(mgr).subs_of(channel@) == Seq::<u64>::empty().push(old(self).endpoint@),
            (old(mgr).has_channel(channel@) && old(mgr).history_of(channel@).len() == 0)
                ==> final(mgr).subs_of(channel@) == old(mgr).subs_of(channel@).push(old(self).endpoint@),
            forall|n: Seq<char>| #![auto]
                n != channel@ && old(mgr).has_channel(n) ==> final(mgr).has_channel(n)
                    && final(mgr).channel_of(n) == old(mgr).channel_of(n),
    {
        let ghost cv = channel@;
        mgr.get_or_create_channel(channel.clone());
        let ok = mgr.add_sender_to_channel(channel.clone(), self.endpoint.duplicate());
        if !self.knows_channel(&channel) {
            self.joined.push(channel);
            proof {
                let ghost names0 = old(self).joined_names();
                assert(self.joined_names() =~= names0.push(cv));
                assert forall|i: int, j: int|
                    0 <= i < j < self.joined_names().len() implies self.joined_names()[i]
                    != self.joined_names()[j] by {
                    if j < names0.len() {
                        assert(names0[i] != names0[j]);
                    } else {
                        if names0[i] == cv {
                            assert(names0.contains(cv));
                        }
                    }
                }
            }
        }
    }

    /// One `LEAVE`: unsubscribes this connection's endpoint from the channel
    /// (a no-op when the channel is absent or the endpoint was never
    /// subscribed) and untracks the membership.
    pub fn leave_channel(&mut self, mgr: &mut ChannelManager, channel: String)
        requires
            old(self).wf(),
            old(mgr).wf(),
        ensures
            final(self).wf(),
            final(mgr).wf(),
            final(self).display_name@ == old(self).display_name@,
            final(self).endpoint@ == old(self).endpoint@,
            final(self).joined_names() == without_name(old(self).joined_names(), channel@),
            !old(mgr).has_channel(channel@) ==> final(mgr).state() == old(mgr).state(),
            old(mgr).has_channel(channel@) ==> final(mgr).names() == old(mgr).names()
                && final(mgr).history_of(channel@) == old(mgr).history_of(channel@)
                && final(mgr).subs_of(channel@) == without_id(
                old(mgr).subs_of(channel@),
                old(self).endpoint@,
            ) && (forall|n: Seq<char>| #![auto]
                n != channel@ && old(mgr).has_channel(n) ==> final(mgr).channel_of(n)
                    == old(mgr).channel_of(n)),
    {
        let ghost cv = channel@;
        mgr.remove_sender_from_channel(channel.clone(), &self.endpoint);
        let ghost names0 = self.joined_names();
        let mut kept: Vec<String> = Vec::new();
        let mut i: usize = 0;
        while i < self.joined.len()
            invariant
                i <= self.joined@.len(),
                names0 == self.joined_names(),
                cv == channel@,
                kept@.map_values(|s: String| s@) == without_name(names0.take(i as int), cv),
            decreases self.joined@.len() - i,
        {
            proof {
                assert(names0.take(i as int + 1) =~= names0.take(i as int).push(
                    names0[i as int],
                ));
                lemma_without_name_push(names0.take(i as int), names0[i as int], cv);
            }
            if !(self.joined[i] == channel) {
                kept.push(self.joined[i].clone());
            }
            proof {
                assert(kept@.map_values(|s: String| s@) =~= without_name(
                    names0.take(i as int + 1),
                    cv,
                ));
            }
            i += 1;
        }
        self.joined = kept;
        proof {
            assert(names0.take(names0.len() as int) =~= names0);
            lemma_without_name_distinct(names0, cv);
        }
    }

    /// One `SEND`: broadcasts `content` to the channel under this
    /// connection's display name, stamped with the current instant. A no-op
    /// when the channel is absent; dead subscribers the fan-out runs into
    /// are pruned, and nothing here can fail.
    pub fn send_to_channel(&mut self, mgr: &mut ChannelManager, channel: String, content: String)
        requires
            old(self).wf(),
            old(mgr).wf(),
        ensures
            final(self).wf(),
            final(mgr).wf(),
            final(self).display_name@ == old(self).display_name@,
            final(self).endpoint@ == old(self).endpoint@,
            final(self).joined_names() == old(self).joined_names(),
            !old(mgr).has_channel(channel@) ==> final(mgr).state() == old(mgr).state(),
            old(mgr).has_channel(channel@) ==> broadcast_effect(
                *old(mgr),
                *final(mgr),
                channel@,
                old(self).display_name@,
                content@,
            ),
    {
        let sender_name = self.display_name.clone();
        mgr.broadcast_message(channel, sender_name, content);
    }

    /// The transport closed or failed: leaves every channel this connection
    /// had joined, then forgets them all. The connection's endpoint is
    /// pruned from each joined channel's subscribers; no other channel, and
    /// no history anywhere, is touched.
    pub fn handle_disconnect(&mut self, mgr: &mut ChannelManager)
        requires
            old(self).wf(),
            old(mgr).wf(),
        ensures
            final(self).wf(),
            final(mgr).wf(),
            final(self).display_name@ == old(self).display_name@,
            final(self).endpoint@ == old(self).endpoint@,
            final(self).joined_names() == Seq::<Seq<char>>::empty(),
            final(mgr).names() == old(mgr).names(),
            forall|n: Seq<char>| #![auto]
                old(mgr).has_channel(n) ==> final(mgr).history_of(n) == old(mgr).history_of(n),
            forall|n: Seq<char>| #![auto]
                old(mgr).has_channel(n) && old(self).has_joined(n) ==> final(mgr).subs_of(n)
                    == without_id(old(mgr).subs_of(n), old(self).endpoint@),
            forall|n: Seq<char>| #![auto]
                old(mgr).has_channel(n) && !old(self).has_joined(n) ==> final(mgr).channel_of(n)
                    == old(mgr).channel_of(n),
    {
        let ghost names0 = self.joined_names();
        let ghost id = self.endpoint@;
        let mut i: usize = 0;
        while i < self.joined.len()
            invariant
                i <= self.joined@.len(),
                names0 == self.joined_names(),
                id == self.endpoint@,
                old(self).wf(),
                mgr.wf(),
                mgr.names() == old(mgr).names(),
                forall|n: Seq<char>| #![auto]
                    old(mgr).has_channel(n) ==> mgr.history_of(n) == old(mgr).history_of(n),
                forall|n: Seq<char>| #![auto]
                    old(mgr).has_channel(n) && (exists|k: int| 0 <= k < i && names0[k] == n)
                        ==> mgr.subs_of(n) == without_id(old(mgr).subs_of(n), id),
                forall|n: Seq<char>| #![auto]
                    old(mgr).has_channel(n) && !(exists|k: int| 0 <= k < i && names0[k] == n)
                        ==> mgr.channel_of(n) == old(mgr).channel_of(n),
            decreases self.joined@.len() - i,
        {
            let name = self.joined[i].clone();
            let ghost nv = names0[i as int];
            let ghost mpre = *mgr;
            mgr.remove_sender_from_channel(name, &self.endpoint);
            proof {
                assert(mpre.has_channel(nv) == old(mgr).has_channel(nv));
                if mpre.has_channel(nv) {
                    assert(!(exists|k: int| 0 <= k < i && names0[k] == nv)) by {
                        if exists|k: int| 0 <= k < i && names0[k] == nv {
                            let k = choose|k: int| 0 <= k < i && names0[k] == nv;
                            assert(names0[k] != names0[i as int]);
                        }
                    }
                    assert(mpre.subs_of(nv) == old(mgr).subs_of(nv));
                    assert(mpre.channel_of(nv) == old(mgr).channel_of(nv));
                }
                assert forall|n: Seq<char>| #![auto]
                    old(mgr).has_channel(n) && (exists|k: int| 0 <= k < i + 1 && names0[k] == n)
                        implies mgr.subs_of(n) == without_id(old(mgr).subs_of(n), id) by {
                    if n == nv {
                        assert(mpre.has_channel(nv));
                    } else {
                        let k = choose|k: int| 0 <= k < i + 1 && names0[k] == n;
                        assert(k != i);
                        assert(mpre.subs_of(n) == without_id(old(mgr).subs_of(n), id));
                        if mpre.has_channel(nv) {
                            assert(mgr.channel_of(n) == mpre.channel_of(n));
                        }
                    }
                }
                assert forall|n: Seq<char>| #![auto]
                    old(mgr).has_channel(n) && !(exists|k: int| 0 <= k < i + 1 && names0[k] == n)
                        implies mgr.channel_of(n) == old(mgr).channel_of(n) by {
                    assert(n != nv) by {
                        if n == nv {
                            assert(0 <= i < i + 1 && names0[i as int] == nv);
                        }
                    }
                    assert(mpre.channel_of(n) == old(mgr).channel_of(n));
                    if mpre.has_channel(nv) {
                        assert(mgr.channel_of(n) == mpre.channel_of(n));
                    }
                }
            }
            i += 1;
        }
        self.joined.clear();
        proof {
            assert(self.joined_names() =~= Seq::<Seq<char>>::empty());
        }
    }
}

} // verus!
