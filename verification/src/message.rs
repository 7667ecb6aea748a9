//! Chat messages and their wire encoding.
//!
//! A server-to-client frame is the text
//! `MSG:<channel>:<sender>:<content>:<HH:MM:SS>`, where the trailing clock
//! is the message's time of day in UTC, zero padded, 24-hour.

use vstd::prelude::*;

verus! {

/// One chat message, immutable once created: who sent it, what it says, and
/// when it was broadcast, as whole seconds since the Unix epoch (UTC).
pub struct ChatMessage {
    pub sender: String,
    pub content: String,
    pub timestamp: u64,
}

/// Mathematical image of a [`ChatMessage`].
#[verifier::ext_equal]
pub ghost struct ChatMessageView {
    pub sender: Seq<char>,
    pub content: Seq<char>,
    pub timestamp: u64,
}

impl View for ChatMessage {
    type V = ChatMessageView;

    open spec fn view(&self) -> ChatMessageView {
        ChatMessageView {
            sender: self.sender@,
            content: self.content@,
            timestamp: self.timestamp,
        }
    }
}

/// The decimal digit character for `d`, which must be below ten.
pub open spec fn digit_char(d: u64) -> char {
    if d == 0 {
        '0'
    } else if d == 1 {
        '1'
    } else if d == 2 {
        '2'
    } else if d == 3 {
        '3'
    } else if d == 4 {
        '4'
    } else if d == 5 {
        '5'
    } else if d == 6 {
        '6'
    } else if d == 7 {
        '7'
    } else if d == 8 {
        '8'
    } else {
        '9'
    }
}

/// `x` (below one hundred) as two zero-padded decimal digits.
pub open spec fn two_digits(x: u64) -> Seq<char> {
    seq![digit_char(x / 10), digit_char(x % 10)]
}

/// The time of day that `timestamp` falls on (UTC), as `HH:MM:SS`.
pub open spec fn clock_chars(timestamp: u64) -> Seq<char> {
    let sod = timestamp % 86400;
    two_digits(sod / 3600) + seq![':'] + two_digits((sod % 3600) / 60) + seq![':'] + two_digits(
        sod % 60,
    )
}

/// The wire frame carrying one message of `channel` to a client.
pub open spec fn encoded_message(
    channel: Seq<char>,
    sender: Seq<char>,
    content: Seq<char>,
    timestamp: u64,
) -> Seq<char> {
    seq!['M', 'S', 'G', ':'] + channel + seq![':'] + sender + seq![':'] + content + seq![':']
        + clock_chars(timestamp)
}

/// The record that a broadcast of `content` by `sender` at `timestamp`
/// appends to a channel's history.
pub open spec fn message_view(sender: Seq<char>, content: Seq<char>, timestamp: u64) -> ChatMessageView {
    ChatMessageView { sender, content, timestamp }
}

/// The wire frame for a whole [`ChatMessage`] of `channel`.
pub open spec fn encoded_of(channel: Seq<char>, m: ChatMessageView) -> Seq<char> {
    encoded_message(channel, m.sender, m.content, m.timestamp)
}

/// A one-character string holding the decimal digit `d`.
fn digit_str(d: u64) -> (r: &'static str)
    requires
        d < 10,
    ensures
        r@ == seq![digit_char(d)],
{
    let r: &'static str = if d == 0 {
        "0"
    } else if d == 1 {
        "1"
    } else if d == 2 {
        "2"
    } else if d == 3 {
        "3"
    } else if d == 4 {
        "4"
    } else if d == 5 {
        "5"
    } else if d == 6 {
        "6"
    } else if d == 7 {
        "7"
    } else if d == 8 {
        "8"
    } else {
        "9"
    };
    proof {
        reveal_strlit("0");
        reveal_strlit("1");
        reveal_strlit("2");
        reveal_strlit("3");
        reveal_strlit("4");
        reveal_strlit("5");
        reveal_strlit("6");
        reveal_strlit("7");
        reveal_strlit("8");
        reveal_strlit("9");
        assert(r@ =~= seq![digit_char(d)]);
    }
    r
}

/// Appends `x` (below one hundred) to `out` as two zero-padded digits.
fn push_two_digits(out: &mut String, x: u64)
    requires
        x < 100,
    ensures
        final(out)@ == old(out)@ + two_digits(x),
{
    out.append(digit_str(x / 10));
    out.append(digit_str(x % 10));
    proof {
        assert(final(out)@ =~= old(out)@ + two_digits(x));
    }
}

/// Builds the wire frame `MSG:<channel>:<sender>:<content>:<HH:MM:SS>`.
pub fn encode_message(channel: &str, sender: &str, content: &str, timestamp: u64) -> (r: String)
    ensures
        r@ == encoded_message(channel@, sender@, content@, timestamp),
{
    let mut out = String::new();
    out.append("MSG:");
    out.append(channel);
    out.append(":");
    out.append(sender);
    out.append(":");
    out.append(content);
    out.append(":");
    let sod = timestamp % 86400;
    push_two_digits(&mut out, sod / 3600);
    out.append(":");
    push_two_digits(&mut out, (sod % 3600) / 60);
    out.append(":");
    push_two_digits(&mut out, sod % 60);
    proof {
        reveal_strlit("MSG:");
        reveal_strlit(":");
        assert(out@ =~= encoded_message(channel@, sender@, content@, timestamp));
    }
    out
}

} // verus!
