use flodgatt::bus::{auth_bytes, check_auth_reply, check_ping_reply, command_bytes, RedisConnErr};
use flodgatt::receiver::RedisCmd;
use flodgatt::subscription::{sse_stream_name, Query, RequestErr, Subscription};
use flodgatt::timeline::{Content, Reach, Stream, Timeline};
use flodgatt::user::{query_for_user_data, query_list_owner, select_user, Blocks, PostgresPool, Scope, UserData};

fn query(stream: &str, token: Option<&str>) -> Query {
    Query {
        access_token: token.map(|t| t.to_string()),
        stream: stream.to_string(),
        media: false,
        hashtag: String::new(),
        list: 0,
    }
}

fn user_with(scopes: Vec<Scope>) -> UserData {
    UserData { id: 7, allowed_langs: vec!["en".to_string()], scopes }
}

#[test]
fn auth_gate_on_user_notification() {
    let q = query("user:notification", Some("tok"));
    let denied = Subscription::from_query(q, Some(user_with(vec![Scope::Notifications])), None, false, Blocks::none(), false);
    assert_eq!(denied.err(), Some(RequestErr::Unauthorized));
    let q = query("user:notification", Some("tok"));
    let sub = Subscription::from_query(q, Some(user_with(vec![Scope::Statuses])), None, false, Blocks::none(), false)
        .ok()
        .expect("a reader of statuses may subscribe");
    assert_eq!(sub.timeline, Timeline(Stream::User(7), Reach::Federated, Content::Notification));
    assert_eq!(sub.allowed_langs, vec!["en".to_string()]);
    assert_eq!(sub.access_token, Some("tok".to_string()));
    assert!(sub.hashtag_name.is_none());
}

#[test]
fn test_user_reads_everything() {
    let u = select_user("TEST_USER", PostgresPool::new()).expect("known token");
    assert_eq!(u.id, 1);
    for s in [Scope::Read, Scope::Statuses, Scope::Notifications, Scope::Lists] {
        assert!(u.scopes.contains(&s));
    }
    assert!(select_user("nobody", PostgresPool::new()).is_none());
    let q = query("direct", Some("TEST_USER"));
    let sub = Subscription::from_query(q, Some(u), None, false, Blocks::none(), false).ok().unwrap();
    assert_eq!(sub.timeline, Timeline(Stream::Direct(1), Reach::Federated, Content::All));
}

#[test]
fn anonymous_and_whitelist() {
    let sub = Subscription::from_query(query("public:local", None), None, None, false, Blocks::none(), false)
        .ok()
        .unwrap();
    assert_eq!(sub.timeline, Timeline(Stream::Public, Reach::Local, Content::All));
    let shut = Subscription::from_query(query("public", None), None, None, false, Blocks::none(), true);
    assert_eq!(shut.err(), Some(RequestErr::Unauthorized));
    let anon_user = Subscription::from_query(query("user", None), None, None, false, Blocks::none(), false);
    assert_eq!(anon_user.err(), Some(RequestErr::Unauthorized));
    let unknown = Subscription::from_query(query("public", Some("bad")), None, None, false, Blocks::none(), false);
    assert_eq!(unknown.err(), Some(RequestErr::Unauthorized));
}

#[test]
fn unknown_stream_and_hashtag() {
    let r = Subscription::from_query(query("firehose", None), None, None, false, Blocks::none(), false);
    assert_eq!(r.err(), Some(RequestErr::NotFound));
    let mut q = query("hashtag:local", None);
    q.hashtag = "rust".to_string();
    let r = Subscription::from_query(q, None, None, false, Blocks::none(), false);
    assert_eq!(r.err(), Some(RequestErr::NotFound));
    let mut q = query("hashtag:local", None);
    q.hashtag = "rust".to_string();
    let sub = Subscription::from_query(q, None, Some(42), false, Blocks::none(), false).ok().unwrap();
    assert_eq!(sub.timeline, Timeline(Stream::Hashtag(42), Reach::Local, Content::All));
    assert_eq!(sub.hashtag_name, Some("rust".to_string()));
}

#[test]
fn media_and_lists() {
    let mut q = query("public", None);
    q.media = true;
    let sub = Subscription::from_query(q, None, None, false, Blocks::none(), false).ok().unwrap();
    assert_eq!(sub.timeline, Timeline(Stream::Public, Reach::Federated, Content::Media));
    let owner = query_list_owner(1, PostgresPool::new());
    assert_eq!(owner, Some(1));
    assert_eq!(query_list_owner(2, PostgresPool::new()), None);
    let mut q = query("list", Some("t"));
    q.list = 1;
    let sub = Subscription::from_query(q, Some(user_with(vec![Scope::Lists])), None, true, Blocks::none(), false)
        .ok()
        .unwrap();
    assert_eq!(sub.timeline, Timeline(Stream::List(1), Reach::Federated, Content::All));
    let mut q = query("list", Some("t"));
    q.list = 1;
    let r = Subscription::from_query(q, Some(user_with(vec![Scope::Lists])), None, false, Blocks::none(), false);
    assert_eq!(r.err(), Some(RequestErr::Unauthorized));
}

#[test]
fn user_rows() {
    let (id, langs, scopes) = query_for_user_data("TEST_USER", PostgresPool::new());
    assert_eq!(id, 1);
    assert!(langs.is_none());
    assert_eq!(scopes, vec!["read".to_string(), "write".to_string(), "follow".to_string()]);
    let (id, _, scopes) = query_for_user_data("other", PostgresPool::new());
    assert_eq!(id, -1);
    assert!(scopes.is_empty());
    let p = UserData::public();
    assert_eq!(p.id, -1);
    assert!(p.scopes.is_empty() && p.allowed_langs.is_empty());
}

#[test]
fn default_subscription() {
    let s = Subscription::default();
    assert_eq!(s.timeline, Timeline::empty());
    assert!(s.hashtag_name.is_none() && s.access_token.is_none());
}

#[test]
fn sse_routes() {
    assert_eq!(sse_stream_name("user/notification"), Some("user:notification".to_string()));
    assert_eq!(sse_stream_name("public/local"), Some("public:local".to_string()));
    assert_eq!(sse_stream_name("hashtag/local"), Some("hashtag:local".to_string()));
    assert_eq!(sse_stream_name("list"), Some("list".to_string()));
    assert_eq!(sse_stream_name("public/media"), None);
}

#[test]
fn bus_commands_and_replies() {
    assert_eq!(
        command_bytes(RedisCmd::Unsubscribe, "mx:timeline:1"),
        b"*2\r\n$11\r\nunsubscribe\r\n$13\r\nmx:timeline:1\r\n".to_vec()
    );
    assert_eq!(auth_bytes("pw"), b"*2\r\n$4\r\nauth\r\n$2\r\npw\r\n".to_vec());
    assert_eq!(check_auth_reply(b"+OK\r\n"), Ok(()));
    assert_eq!(check_auth_reply(b"-ERR i"), Err(RedisConnErr::IncorrectPassword));
    assert_eq!(check_ping_reply(b"+PONG\r\n"), Ok(()));
    assert_eq!(check_ping_reply(b"-NOAUTH"), Err(RedisConnErr::MissingPassword));
    assert_eq!(check_ping_reply(b"HTTP/1."), Err(RedisConnErr::NotRedis));
    assert_eq!(check_ping_reply(b"+PING\r\n"), Err(RedisConnErr::InvalidRedisReply));
}
