use chat_relay::endpoint::Endpoint;
use chat_relay::message::encode_message;
use chat_relay::protocol::{parse_command, Command, ConnectionState};
use chat_relay::registry::ChannelManager;
use tokio::sync::mpsc::{unbounded_channel, UnboundedReceiver};

fn client(id: u64) -> (Endpoint, UnboundedReceiver<String>) {
    let (tx, rx) = unbounded_channel();
    (Endpoint::new(id, tx), rx)
}

fn drain(rx: &mut UnboundedReceiver<String>) -> Vec<String> {
    let mut out = Vec::new();
    loop {
        match rx.try_recv() {
            Ok(frame) => out.push(frame),
            Err(_) => return out,
        }
    }
}

// 12:34:56 UTC as seconds since midnight.
const T1: u64 = 12 * 3600 + 34 * 60 + 56;

#[test]
fn encode_message_exact() {
    let frame = encode_message("general", "A", "hello", T1);
    assert_eq!(frame, "MSG:general:A:hello:12:34:56");
}

#[test]
fn encode_message_zero_padded_and_wrapping() {
    // One day plus 00:05:09 gives the same clock as 00:05:09.
    let frame = encode_message("c", "s", "x", 86400 + 5 * 60 + 9);
    assert_eq!(frame, "MSG:c:s:x:00:05:09");
    let frame = encode_message("c", "s", "", 0);
    assert_eq!(frame, "MSG:c:s::00:00:00");
}

#[test]
fn parse_ping() {
    assert!(matches!(parse_command("PING"), Some(Command::Ping)));
    // The textual keepalive is case-sensitive.
    assert!(parse_command("ping").is_none());
}

#[test]
fn parse_join() {
    match parse_command("JOIN:general") {
        Some(Command::Join(c)) => assert_eq!(c, "general"),
        _ => panic!("JOIN:general must parse as a join"),
    }
}

#[test]
fn parse_leave() {
    match parse_command("LEAVE:general") {
        Some(Command::Leave(c)) => assert_eq!(c, "general"),
        _ => panic!("LEAVE:general must parse as a leave"),
    }
}

#[test]
fn parse_send_with_content() {
    match parse_command("SEND:general:hello world") {
        Some(Command::SendText(c, t)) => {
            assert_eq!(c, "general");
            assert_eq!(t, "hello world");
        },
        _ => panic!("SEND:general:hello world must parse as a send"),
    }
}

#[test]
fn parse_send_content_may_hold_separators_and_be_empty() {
    match parse_command("SEND:general:a:b:c") {
        Some(Command::SendText(c, t)) => {
            assert_eq!(c, "general");
            assert_eq!(t, "a:b:c");
        },
        _ => panic!("content after the channel may hold separators"),
    }
    match parse_command("SEND:general:") {
        Some(Command::SendText(c, t)) => {
            assert_eq!(c, "general");
            assert_eq!(t, "");
        },
        _ => panic!("empty content is a valid send"),
    }
}

#[test]
fn parse_malformed_frames() {
    assert!(parse_command("").is_none());
    assert!(parse_command("HELLO").is_none());
    assert!(parse_command("JOIN:").is_none());
    assert!(parse_command("JOIN:a:b").is_none());
    assert!(parse_command("LEAVE:").is_none());
    assert!(parse_command("SEND:general").is_none());
    assert!(parse_command("SEND::content").is_none());
    assert!(parse_command("join:general").is_none());
}

#[test]
fn create_channel_is_idempotent_and_listed_once() {
    let mut mgr = ChannelManager::new();
    mgr.get_or_create_channel("general".to_string());
    mgr.get_or_create_channel("general".to_string());
    mgr.get_or_create_channel("random".to_string());
    let rooms = mgr.get_active_rooms();
    assert_eq!(rooms, vec!["general".to_string(), "random".to_string()]);
    // State is untouched by the repeat request: still one entry per name.
    assert_eq!(mgr.get_active_rooms().len(), 2);
}

#[test]
fn empty_channels_stay_listed() {
    let mut mgr = ChannelManager::new();
    mgr.get_or_create_channel("ghost-town".to_string());
    assert_eq!(mgr.get_active_rooms(), vec!["ghost-town".to_string()]);
    assert_eq!(mgr.history_len(&"ghost-town".to_string()), 0);
    assert!(mgr.subscriber_ids(&"ghost-town".to_string()).is_empty());
}

#[test]
fn join_replays_history_in_order_without_later_messages() {
    let mut mgr = ChannelManager::new();
    let name = "general".to_string();
    mgr.get_or_create_channel(name.clone());
    mgr.broadcast_message_at(name.clone(), "A".to_string(), "m1".to_string(), T1);
    mgr.broadcast_message_at(name.clone(), "A".to_string(), "m2".to_string(), T1 + 1);
    mgr.broadcast_message_at(name.clone(), "A".to_string(), "m3".to_string(), T1 + 2);

    // What a joiner would be replayed, before joining.
    let frames = mgr.replay_frames(&name);
    assert_eq!(
        frames,
        vec![
            "MSG:general:A:m1:12:34:56".to_string(),
            "MSG:general:A:m2:12:34:57".to_string(),
            "MSG:general:A:m3:12:34:58".to_string(),
        ]
    );

    // B joins: exactly those frames arrive on B's queue, in order.
    let (b, mut rx_b) = client(2);
    assert!(mgr.add_sender_to_channel(name.clone(), b));
    assert_eq!(drain(&mut rx_b), frames);

    // A message broadcast after the join is delivered live, not replayed.
    mgr.broadcast_message_at(name.clone(), "A".to_string(), "m4".to_string(), T1 + 3);
    assert_eq!(drain(&mut rx_b), vec!["MSG:general:A:m4:12:34:59".to_string()]);
}

#[test]
fn replay_of_missing_channel_is_empty() {
    let mgr = ChannelManager::new();
    assert!(mgr.replay_frames(&"nowhere".to_string()).is_empty());
}

#[test]
fn broadcast_appends_history_once_regardless_of_delivery() {
    let mut mgr = ChannelManager::new();
    let name = "general".to_string();
    mgr.get_or_create_channel(name.clone());
    // No subscribers at all: the history still grows by exactly one.
    mgr.broadcast_message_at(name.clone(), "A".to_string(), "hello".to_string(), T1);
    assert_eq!(mgr.history_len(&name), 1);
    let entry = mgr.history_entry(&name, 0).unwrap();
    assert_eq!(entry.0, "A");
    assert_eq!(entry.1, "hello");
    assert_eq!(entry.2, T1);
}

#[test]
fn broadcast_to_missing_channel_is_a_noop() {
    let mut mgr = ChannelManager::new();
    mgr.broadcast_message_at("nowhere".to_string(), "A".to_string(), "x".to_string(), T1);
    assert!(mgr.get_active_rooms().is_empty());
}

#[test]
fn dead_subscriber_is_pruned_on_next_broadcast() {
    let mut mgr = ChannelManager::new();
    let name = "general".to_string();
    mgr.get_or_create_channel(name.clone());
    let (a, rx_a) = client(1);
    let (b, mut rx_b) = client(2);
    assert!(mgr.add_sender_to_channel(name.clone(), a));
    assert!(mgr.add_sender_to_channel(name.clone(), b));
    assert_eq!(mgr.subscriber_ids(&name), vec![1, 2]);

    // A's transport closes without a LEAVE.
    drop(rx_a);

    // The next broadcast must not fail, must append to history, and must
    // silently prune A while still delivering to B.
    mgr.broadcast_message_at(name.clone(), "B".to_string(), "hi".to_string(), T1);
    assert_eq!(mgr.subscriber_ids(&name), vec![2]);
    assert_eq!(mgr.history_len(&name), 1);
    assert_eq!(drain(&mut rx_b), vec!["MSG:general:B:hi:12:34:56".to_string()]);

    // A is absent from every later delivery as well.
    mgr.broadcast_message_at(name.clone(), "B".to_string(), "again".to_string(), T1 + 1);
    assert_eq!(mgr.subscriber_ids(&name), vec![2]);
}

#[test]
fn leave_of_never_subscribed_endpoint_is_a_noop() {
    let mut mgr = ChannelManager::new();
    let name = "general".to_string();
    mgr.get_or_create_channel(name.clone());
    let (a, _rx_a) = client(1);
    let (stranger, _rx_s) = client(99);
    assert!(mgr.add_sender_to_channel(name.clone(), a));

    mgr.remove_sender_from_channel(name.clone(), &stranger);
    assert_eq!(mgr.subscriber_ids(&name), vec![1]);
    assert_eq!(mgr.get_active_rooms(), vec!["general".to_string()]);

    // Leaving a channel that does not exist changes nothing either.
    mgr.remove_sender_from_channel("nowhere".to_string(), &stranger);
    assert_eq!(mgr.get_active_rooms(), vec!["general".to_string()]);
}

#[test]
fn leave_removes_by_identity_not_by_handle() {
    let mut mgr = ChannelManager::new();
    let name = "general".to_string();
    mgr.get_or_create_channel(name.clone());
    let (a, _rx_a) = client(1);
    // A fresh handle to the same connection: same identity, same queue.
    let a_again = a.duplicate();
    assert_eq!(a_again.id(), 1);
    assert!(mgr.add_sender_to_channel(name.clone(), a));
    // Removal with the duplicate must match the subscribed original.
    mgr.remove_sender_from_channel(name.clone(), &a_again);
    assert!(mgr.subscriber_ids(&name).is_empty());
}

#[test]
fn two_sends_reach_history_and_every_subscriber_in_one_order() {
    let mut mgr = ChannelManager::new();
    let name = "general".to_string();
    mgr.get_or_create_channel(name.clone());
    let (a, mut rx_a) = client(1);
    let (b, mut rx_b) = client(2);
    assert!(mgr.add_sender_to_channel(name.clone(), a));
    assert!(mgr.add_sender_to_channel(name.clone(), b));

    // Registry operations are linearized by the caller's lock: whatever
    // order the two SENDs won, both land in history in that order and every
    // subscriber sees the same order.
    mgr.broadcast_message_at(name.clone(), "A".to_string(), "first".to_string(), T1);
    mgr.broadcast_message_at(name.clone(), "B".to_string(), "second".to_string(), T1 + 1);

    assert_eq!(mgr.history_len(&name), 2);
    assert_eq!(mgr.history_entry(&name, 0).unwrap().1, "first");
    assert_eq!(mgr.history_entry(&name, 1).unwrap().1, "second");
    let expected = vec![
        "MSG:general:A:first:12:34:56".to_string(),
        "MSG:general:B:second:12:34:57".to_string(),
    ];
    assert_eq!(drain(&mut rx_a), expected);
    assert_eq!(drain(&mut rx_b), expected);
}

#[test]
fn join_of_dead_endpoint_with_history_reports_failure() {
    let mut mgr = ChannelManager::new();
    let name = "general".to_string();
    mgr.get_or_create_channel(name.clone());
    mgr.broadcast_message_at(name.clone(), "A".to_string(), "m1".to_string(), T1);
    let (dead, rx_dead) = client(7);
    drop(rx_dead);
    // Replay fails on the first entry: the endpoint is not subscribed and
    // the failure is reported to this caller alone.
    assert!(!mgr.add_sender_to_channel(name.clone(), dead));
    assert!(mgr.subscriber_ids(&name).is_empty());
    assert_eq!(mgr.history_len(&name), 1);
}

#[test]
fn join_of_missing_channel_reports_failure() {
    let mut mgr = ChannelManager::new();
    let (a, _rx_a) = client(1);
    assert!(!mgr.add_sender_to_channel("nowhere".to_string(), a));
    assert!(mgr.get_active_rooms().is_empty());
}

#[test]
fn ping_frame_answered_with_pong_on_own_queue() {
    let mut mgr = ChannelManager::new();
    let (a, mut rx_a) = client(1);
    let mut conn = ConnectionState::new("A".to_string(), a);
    conn.handle_frame(&mut mgr, "PING");
    assert_eq!(drain(&mut rx_a), vec!["PONG".to_string()]);
    assert!(mgr.get_active_rooms().is_empty());
}

#[test]
fn malformed_frame_changes_nothing() {
    let mut mgr = ChannelManager::new();
    let (a, mut rx_a) = client(1);
    let mut conn = ConnectionState::new("A".to_string(), a);
    conn.handle_frame(&mut mgr, "GREETINGS:general");
    conn.handle_frame(&mut mgr, "JOIN:");
    assert!(mgr.get_active_rooms().is_empty());
    assert!(drain(&mut rx_a).is_empty());
}

#[test]
fn protocol_scenario_join_send_join_replay_close() {
    let mut mgr = ChannelManager::new();
    let (a, mut rx_a) = client(1);
    let (b, mut rx_b) = client(2);
    let mut conn_a = ConnectionState::new("A".to_string(), a);
    let mut conn_b = ConnectionState::new("B".to_string(), b);

    // A joins: the channel appears, with empty history and A subscribed.
    conn_a.handle_frame(&mut mgr, "JOIN:general");
    assert_eq!(mgr.get_active_rooms(), vec!["general".to_string()]);
    assert_eq!(mgr.history_len(&"general".to_string()), 0);
    assert_eq!(mgr.subscriber_ids(&"general".to_string()), vec![1]);
    assert!(drain(&mut rx_a).is_empty());

    // A sends: history becomes [("A", "hello", t1)] and A hears itself.
    conn_a.handle_frame(&mut mgr, "SEND:general:hello");
    let entry = mgr.history_entry(&"general".to_string(), 0).unwrap();
    assert_eq!(entry.0, "A");
    assert_eq!(entry.1, "hello");
    let heard_a = drain(&mut rx_a);
    assert_eq!(heard_a.len(), 1);
    assert!(heard_a[0].starts_with("MSG:general:A:hello:"));

    // B joins and is replayed exactly that message.
    conn_b.handle_frame(&mut mgr, "JOIN:general");
    let replayed = drain(&mut rx_b);
    assert_eq!(replayed, heard_a);

    // B sends; A receives it live, and B, as a member, hears itself.
    conn_b.handle_frame(&mut mgr, "SEND:general:hi");
    let heard = drain(&mut rx_a);
    assert_eq!(heard.len(), 1);
    assert!(heard[0].starts_with("MSG:general:B:hi:"));
    assert_eq!(drain(&mut rx_b).len(), 1);

    // A's transport closes without LEAVE; the reader observes it and leaves
    // every joined channel.
    drop(rx_a);
    conn_a.handle_disconnect(&mut mgr);
    assert_eq!(mgr.subscriber_ids(&"general".to_string()), vec![2]);

    // The next send from B succeeds, A is absent from delivery, and no
    // error surfaces to B or the server.
    conn_b.handle_frame(&mut mgr, "SEND:general:anyone here?");
    assert_eq!(mgr.history_len(&"general".to_string()), 3);
    let heard_b = drain(&mut rx_b);
    assert_eq!(heard_b.len(), 1);
    assert!(heard_b[0].starts_with("MSG:general:B:anyone here?:"));
}

#[test]
fn leave_frame_unsubscribes_and_untracks() {
    let mut mgr = ChannelManager::new();
    let (a, mut rx_a) = client(1);
    let mut conn = ConnectionState::new("A".to_string(), a);
    conn.handle_frame(&mut mgr, "JOIN:general");
    conn.handle_frame(&mut mgr, "LEAVE:general");
    assert!(mgr.subscriber_ids(&"general".to_string()).is_empty());
    // The channel itself lives on.
    assert_eq!(mgr.get_active_rooms(), vec!["general".to_string()]);
    // No longer a member: a later broadcast does not reach this connection.
    mgr.broadcast_message_at("general".to_string(), "X".to_string(), "y".to_string(), T1);
    assert!(drain(&mut rx_a).is_empty());
}

#[test]
fn disconnect_leaves_every_joined_channel() {
    let mut mgr = ChannelManager::new();
    let (a, _rx_a) = client(1);
    let (b, _rx_b) = client(2);
    let mut conn_a = ConnectionState::new("A".to_string(), a);
    let mut conn_b = ConnectionState::new("B".to_string(), b);
    conn_a.handle_frame(&mut mgr, "JOIN:one");
    conn_a.handle_frame(&mut mgr, "JOIN:two");
    conn_b.handle_frame(&mut mgr, "JOIN:two");
    conn_a.handle_disconnect(&mut mgr);
    assert!(mgr.subscriber_ids(&"one".to_string()).is_empty());
    assert_eq!(mgr.subscriber_ids(&"two".to_string()), vec![2]);
    // A second disconnect is harmless: there is nothing left to leave.
    conn_a.handle_disconnect(&mut mgr);
    assert_eq!(mgr.subscriber_ids(&"two".to_string()), vec![2]);
}

#[test]
fn joining_twice_subscribes_twice_but_creates_once() {
    let mut mgr = ChannelManager::new();
    let name = "general".to_string();
    mgr.get_or_create_channel(name.clone());
    let (a, _rx_a) = client(1);
    let a2 = a.duplicate();
    assert!(mgr.add_sender_to_channel(name.clone(), a));
    assert!(mgr.add_sender_to_channel(name.clone(), a2));
    // One channel; the registry keeps what it was given, by identity.
    assert_eq!(mgr.get_active_rooms(), vec!["general".to_string()]);
    assert_eq!(mgr.subscriber_ids(&name), vec![1, 1]);
    // One LEAVE removes every subscription of that identity.
    let (probe, _rx_p) = client(1);
    mgr.remove_sender_from_channel(name.clone(), &probe);
    assert!(mgr.subscriber_ids(&name).is_empty());
}

#[test]
fn broadcast_with_wall_clock_appends_history() {
    let mut mgr = ChannelManager::new();
    let name = "general".to_string();
    mgr.get_or_create_channel(name.clone());
    mgr.broadcast_message(name.clone(), "A".to_string(), "now".to_string());
    assert_eq!(mgr.history_len(&name), 1);
    let entry = mgr.history_entry(&name, 0).unwrap();
    assert_eq!(entry.0, "A");
    assert_eq!(entry.1, "now");
}

#[test]
fn send_to_missing_channel_via_protocol_is_ignored() {
    let mut mgr = ChannelManager::new();
    let (a, mut rx_a) = client(1);
    let mut conn = ConnectionState::new("A".to_string(), a);
    conn.handle_frame(&mut mgr, "SEND:nowhere:hello");
    assert!(mgr.get_active_rooms().is_empty());
    assert!(drain(&mut rx_a).is_empty());
}

#[test]
fn leave_without_join_via_protocol_is_ignored() {
    let mut mgr = ChannelManager::new();
    let (a, _rx_a) = client(1);
    let (b, _rx_b) = client(2);
    let mut conn_a = ConnectionState::new("A".to_string(), a);
    let mut conn_b = ConnectionState::new("B".to_string(), b);
    conn_a.handle_frame(&mut mgr, "JOIN:general");
    conn_b.handle_frame(&mut mgr, "LEAVE:general");
    assert_eq!(mgr.subscriber_ids(&"general".to_string()), vec![1]);
    assert_eq!(mgr.get_active_rooms(), vec!["general".to_string()]);
}

#[test]
fn join_with_empty_history_always_succeeds() {
    let mut mgr = ChannelManager::new();
    mgr.get_or_create_channel("fresh".to_string());
    // Even a dead endpoint subscribes: with nothing to replay, no delivery
    // can be refused, so success is owed.
    let (dead, rx) = client(3);
    drop(rx);
    assert!(mgr.add_sender_to_channel("fresh".to_string(), dead));
    assert_eq!(mgr.subscriber_ids(&"fresh".to_string()), vec![3]);
}
