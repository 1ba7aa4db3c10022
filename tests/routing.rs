use flodgatt::bus::command_bytes;
use flodgatt::frame::{try_parse, RedisParseOutput};
use flodgatt::receiver::{Polled, Receiver, RedisCmd};
use flodgatt::timeline::{Content, Reach, Stream, Timeline, TimelineErr};

const A: u128 = 0xA;
const B: u128 = 0xB;

fn msg(channel: &str, payload: &str) -> Vec<u8> {
    format!(
        "*3\r\n$7\r\nmessage\r\n${}\r\n{}\r\n${}\r\n{}\r\n",
        channel.len(),
        channel,
        payload.len(),
        payload
    )
    .into_bytes()
}

fn ev(s: &str) -> String {
    format!("{{\"e\":\"{}\"}}", s)
}

fn public() -> Timeline {
    Timeline(Stream::Public, Reach::Federated, Content::All)
}

fn ready(p: Polled) -> Option<String> {
    match p {
        Polled::Ready(s) => Some(s),
        Polled::NotReady => None,
    }
}

#[test]
fn single_client_public_subscribe() {
    let mut r = Receiver::new(None, 0, 0);
    let cmds = r.manage_new_timeline(A, public(), None, 0);
    assert_eq!(cmds.len(), 1);
    assert_eq!(cmds[0].cmd, RedisCmd::Subscribe);
    assert_eq!(cmds[0].channel, "timeline:public");
    assert_eq!(
        command_bytes(cmds[0].cmd, &cmds[0].channel),
        b"*2\r\n$9\r\nsubscribe\r\n$15\r\ntimeline:public\r\n".to_vec()
    );
    r.receive(&msg("timeline:public", "{}"), 5);
    assert_eq!(ready(r.poll(A, 6)), Some("{}".to_string()));
    assert_eq!(ready(r.poll(A, 7)), None);
}

#[test]
fn reference_counting() {
    let mut r = Receiver::new(None, 0, 0);
    let a = r.manage_new_timeline(A, public(), None, 0);
    let b = r.manage_new_timeline(B, public(), None, 0);
    assert_eq!(a.len() + b.len(), 1);
    assert_eq!(r.subscriber_count(public()), 2);
    assert!(r.unregister(A).is_none());
    assert_eq!(r.subscriber_count(public()), 1);
    let last = r.unregister(B).expect("the last client drops the channel");
    assert_eq!(last.cmd, RedisCmd::Unsubscribe);
    assert_eq!(last.channel, "timeline:public");
    assert_eq!(r.subscriber_count(public()), 0);
}

#[test]
fn namespace_filter() {
    let mut r = Receiver::new(Some("mx".to_string()), 0, 0);
    let cmds = r.manage_new_timeline(A, public(), None, 0);
    assert_eq!(cmds.len(), 1);
    assert_eq!(cmds[0].channel, "mx:timeline:public");
    r.receive(&msg("other:timeline:public", &ev("x")), 1);
    assert_eq!(ready(r.poll(A, 1)), None);
    r.receive(&msg("mx:timeline:public", &ev("y")), 2);
    assert_eq!(ready(r.poll(A, 2)), Some(ev("y")));
}

#[test]
fn incremental_parse_across_reads() {
    let first = b"*3\r\n$7\r\nmess";
    assert!(matches!(try_parse(first), RedisParseOutput::Incomplete));
    let mut whole = first.to_vec();
    whole.extend_from_slice(b"age\r\n$15\r\ntimeline:public\r\n$2\r\nab\r\n");
    match try_parse(&whole) {
        RedisParseOutput::Msg(m) => {
            assert_eq!(m.timeline_txt, "timeline:public");
            assert_eq!(m.event_txt, "ab");
            assert_eq!(m.consumed, whole.len());
        }
        _ => panic!("expected a delivery"),
    }
}

#[test]
fn incremental_delivery_through_router() {
    let mut r = Receiver::new(None, 0, 0);
    r.manage_new_timeline(A, public(), None, 0);
    r.receive(b"*3\r\n$7\r\nmess", 1);
    assert_eq!(ready(r.poll(A, 1)), None);
    assert_eq!(r.redis_input.len(), 12);
    r.receive(b"age\r\n$15\r\ntimeline:public\r\n$2\r\n{}\r\n", 2);
    assert_eq!(ready(r.poll(A, 2)), Some("{}".to_string()));
    assert!(r.redis_input.is_empty());
}

#[test]
fn every_follower_gets_each_event_once_in_order() {
    let mut r = Receiver::new(None, 0, 0);
    let local = Timeline(Stream::Public, Reach::Local, Content::All);
    r.manage_new_timeline(A, public(), None, 0);
    r.manage_new_timeline(B, public(), None, 0);
    r.manage_new_timeline(0xC, local, None, 0);
    let mut bytes = msg("timeline:public", &ev("1"));
    bytes.extend_from_slice(&msg("timeline:public:local", &ev("L")));
    bytes.extend_from_slice(&msg("timeline:public", &ev("2")));
    r.receive(&bytes, 1);
    for id in [A, B] {
        assert_eq!(ready(r.poll(id, 2)), Some(ev("1")));
        assert_eq!(ready(r.poll(id, 2)), Some(ev("2")));
        assert_eq!(ready(r.poll(id, 2)), None);
    }
    assert_eq!(ready(r.poll(0xC, 2)), Some(ev("L")));
    assert_eq!(ready(r.poll(0xC, 2)), None);
}

#[test]
fn no_event_after_unregister() {
    let mut r = Receiver::new(None, 0, 0);
    r.manage_new_timeline(A, public(), None, 0);
    r.receive(&msg("timeline:public", &ev("x")), 1);
    r.unregister(A);
    assert_eq!(ready(r.poll(A, 2)), None);
    r.receive(&msg("timeline:public", &ev("z")), 3);
    assert_eq!(ready(r.poll(A, 4)), None);
}

#[test]
fn acknowledgements_and_garbage_are_passed_over() {
    let mut r = Receiver::new(None, 0, 0);
    r.manage_new_timeline(A, public(), None, 0);
    let mut bytes = b"*3\r\n$9\r\nsubscribe\r\n$15\r\ntimeline:public\r\n:1\r\n".to_vec();
    bytes.extend_from_slice(b"junk");
    bytes.extend_from_slice(&msg("timeline:public", &ev("k")));
    let report = r.receive(&bytes, 1);
    assert_eq!(report.malformed, 1);
    assert_eq!(report.missing_hashtags, 0);
    assert_eq!(ready(r.poll(A, 1)), Some(ev("k")));
    assert_eq!(ready(r.poll(A, 1)), None);
}

#[test]
fn trailing_bytes_without_frame_start_are_kept() {
    let mut r = Receiver::new(None, 0, 0);
    r.manage_new_timeline(A, public(), None, 0);
    let report = r.receive(b"xx\xc3", 1);
    assert_eq!(report.malformed, 0);
    assert_eq!(r.redis_input, b"xx\xc3".to_vec());
    let report = r.receive(b"\xa9*3\r\n$7\r\nmessage\r\n$15\r\ntimeline:public\r\n$2\r\n{}\r\n", 2);
    assert_eq!(report.malformed, 1);
    assert!(r.redis_input.is_empty());
    assert_eq!(ready(r.poll(A, 2)), Some("{}".to_string()));
}

#[test]
fn uncached_hashtag_delivery_is_reported() {
    let mut r = Receiver::new(None, 0, 0);
    let report = r.receive(&msg("timeline:hashtag:zig", &ev("z")), 1);
    assert_eq!(report.missing_hashtags, 1);
    assert_eq!(report.malformed, 0);
}

#[test]
fn hashtag_delivery_reaches_queue_by_decoded_timeline() {
    let mut r = Receiver::new(None, 0, 0);
    let tl = Timeline(Stream::Hashtag(42), Reach::Federated, Content::All);
    r.manage_new_timeline(A, tl, Some("rust".to_string()), 0);
    let report = r.receive(&msg("timeline:hashtag:rust", &ev("h")), 1);
    assert_eq!(report.missing_hashtags, 0);
    assert_eq!(ready(r.poll(A, 1)), Some(ev("h")));
}

#[test]
fn subscribe_ack_is_no_delivery() {
    let ack = b"*3\r\n$9\r\nsubscribe\r\n$15\r\ntimeline:public\r\n:1\r\n";
    match try_parse(ack) {
        RedisParseOutput::NonMsg(n) => assert_eq!(n, ack.len()),
        _ => panic!("expected an acknowledgement"),
    }
    assert!(matches!(try_parse(b"+OK\r\n"), RedisParseOutput::Malformed));
    assert!(matches!(try_parse(b""), RedisParseOutput::Incomplete));
}

#[test]
fn replacing_a_clients_timeline_moves_its_subscription() {
    let mut r = Receiver::new(None, 0, 0);
    r.manage_new_timeline(A, public(), None, 0);
    let local = Timeline(Stream::Public, Reach::Local, Content::All);
    let cmds = r.manage_new_timeline(A, local, None, 0);
    assert_eq!(cmds.len(), 2);
    assert_eq!(cmds[0].cmd, RedisCmd::Unsubscribe);
    assert_eq!(cmds[0].channel, "timeline:public");
    assert_eq!(cmds[1].cmd, RedisCmd::Subscribe);
    assert_eq!(cmds[1].channel, "timeline:public:local");
    assert_eq!(r.subscriber_count(public()), 0);
    assert_eq!(r.subscriber_count(local), 1);
}

#[test]
fn shutdown_unsubscribes_every_channel_once() {
    let mut r = Receiver::new(None, 0, 0);
    r.manage_new_timeline(A, public(), None, 0);
    r.manage_new_timeline(B, public(), None, 0);
    r.manage_new_timeline(0xC, Timeline(Stream::User(7), Reach::Federated, Content::All), None, 0);
    let cmds = r.unsubscribe_all();
    assert_eq!(cmds.len(), 2);
    assert!(cmds.iter().all(|c| c.cmd == RedisCmd::Unsubscribe));
    let mut chans: Vec<String> = cmds.iter().map(|c| c.channel.clone()).collect();
    chans.sort();
    assert_eq!(chans, vec!["timeline:7".to_string(), "timeline:public".to_string()]);
}

#[test]
fn hashtag_registration_fills_cache() {
    let mut r = Receiver::new(None, 0, 0);
    let tl = Timeline(Stream::Hashtag(42), Reach::Federated, Content::All);
    let cmds = r.manage_new_timeline(A, tl, Some("rust".to_string()), 0);
    assert_eq!(cmds[0].channel, "timeline:hashtag:rust");
    assert_eq!(r.cache.id_of("rust"), Some(42));
    assert_eq!(r.cache.name_of(42), Some("rust".to_string()));
}

#[test]
fn poll_is_due_after_interval() {
    let r = Receiver::new(None, 100, 1000);
    assert!(!r.poll_due(1050));
    assert!(r.poll_due(1100));
    assert!(!r.poll_due(900));
}

#[test]
fn router_decodes_channels_with_its_cache() {
    let mut r = Receiver::new(Some("mx".to_string()), 0, 0);
    let tl = Timeline(Stream::Hashtag(42), Reach::Local, Content::All);
    let cmds = r.manage_new_timeline(A, tl, Some("rust".to_string()), 0);
    assert_eq!(cmds[0].channel, "mx:timeline:hashtag:rust:local");
    assert_eq!(r.timeline_of("mx:timeline:hashtag:rust:local"), Ok(tl));
    assert_eq!(r.timeline_of("timeline:public"), Err(TimelineErr::RedisNamespaceMismatch));
    assert_eq!(r.timeline_of("mx:timeline:hashtag:go"), Err(TimelineErr::MissingHashtag));
}

#[test]
fn hashtag_cache_holds_a_thousand_entries_each_way() {
    let mut c = flodgatt::cache::Cache::new();
    for i in 0..1000i64 {
        c.put(format!("t{}", i), i);
    }
    assert_eq!(c.id_of("t0"), Some(0));
    assert_eq!(c.hashtag_to_id.len(), 1000);
    c.put("t1000".to_string(), 1000);
    assert_eq!(c.hashtag_to_id.len(), 1000);
    assert_eq!(c.id_to_hashtag.len(), 1000);
    assert_eq!(c.id_of("t1"), None);
    assert_eq!(c.id_of("t1000"), Some(1000));
}

#[test]
fn split_utf8_tail_keeps_unfinished_frame_whole() {
    let mut r = Receiver::new(None, 0, 0);
    r.manage_new_timeline(A, public(), None, 0);
    let bytes = b"*2\r\n$1\r\n*\r\n\xc3";
    let report = r.receive(bytes, 1);
    assert_eq!(report.malformed, 0);
    assert_eq!(r.redis_input, bytes.to_vec());
}

#[test]
fn payloads_that_are_no_event_are_dropped() {
    let mut r = Receiver::new(None, 0, 0);
    r.manage_new_timeline(A, public(), None, 0);
    let mut bytes = msg("timeline:public", "not json");
    bytes.extend_from_slice(&msg("timeline:public", "{}"));
    let report = r.receive(&bytes, 1);
    assert_eq!(report.bad_payloads, 1);
    assert_eq!(ready(r.poll(A, 1)), Some("{}".to_string()));
    assert_eq!(ready(r.poll(A, 1)), None);
}
