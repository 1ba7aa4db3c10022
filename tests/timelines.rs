use flodgatt::timeline::{Content, Reach, Stream, Timeline, TimelineErr};
use lru::LruCache;

fn cache_with(name: &str, id: i64) -> LruCache<String, i64> {
    let mut c = LruCache::new(10);
    c.put(name.to_string(), id);
    c
}

#[test]
fn hashtag_round_trip() {
    let mut cache = cache_with("rust", 42);
    let tl = Timeline(Stream::Hashtag(42), Reach::Local, Content::All);
    let wire = tl.to_redis_raw_timeline(Some(&"rust".to_string()));
    assert_eq!(wire, "timeline:hashtag:rust:local");
    assert_eq!(Timeline::from_redis_raw_timeline(&wire, &mut cache, &None), Ok(tl));
}

#[test]
fn channel_names_of_each_timeline() {
    let tag = "cats".to_string();
    let cases = [
        (Timeline(Stream::Public, Reach::Federated, Content::All), "timeline:public"),
        (Timeline(Stream::Public, Reach::Local, Content::All), "timeline:public:local"),
        (Timeline(Stream::Public, Reach::Federated, Content::Media), "timeline:public:media"),
        (Timeline(Stream::Public, Reach::Local, Content::Media), "timeline:public:local:media"),
        (Timeline(Stream::Hashtag(3), Reach::Federated, Content::All), "timeline:hashtag:cats"),
        (Timeline(Stream::User(1), Reach::Federated, Content::All), "timeline:1"),
        (Timeline(Stream::User(-15), Reach::Federated, Content::Notification), "timeline:-15:notification"),
        (Timeline(Stream::List(906), Reach::Federated, Content::All), "timeline:list:906"),
        (Timeline(Stream::Direct(i64::MIN), Reach::Federated, Content::All), "timeline:direct:-9223372036854775808"),
    ];
    let mut cache = cache_with("cats", 3);
    for (tl, wire) in cases.iter() {
        assert_eq!(tl.to_redis_raw_timeline(Some(&tag)), *wire);
        assert_eq!(Timeline::from_redis_raw_timeline(wire, &mut cache, &None), Ok(*tl));
        let ns = format!("ns:{}", wire);
        assert_eq!(
            Timeline::from_redis_raw_timeline(&ns, &mut cache, &Some("ns".to_string())),
            Ok(*tl)
        );
    }
}

#[test]
fn namespace_mismatch() {
    let mut cache = cache_with("x", 1);
    let ns = Some("mx".to_string());
    assert_eq!(
        Timeline::from_redis_raw_timeline("other:timeline:public", &mut cache, &ns),
        Err(TimelineErr::RedisNamespaceMismatch)
    );
    assert_eq!(
        Timeline::from_redis_raw_timeline("timeline:public", &mut cache, &ns),
        Err(TimelineErr::RedisNamespaceMismatch)
    );
    assert_eq!(
        Timeline::from_redis_raw_timeline("mx:timeline:public", &mut cache, &None),
        Err(TimelineErr::InvalidInput)
    );
}

#[test]
fn invalid_channels() {
    let mut cache = cache_with("x", 1);
    for bad in ["timeline:abc", "timeline:12x:notification", "timeline:list:", "feed:public", "", "timeline:99999999999999999999"] {
        assert_eq!(
            Timeline::from_redis_raw_timeline(bad, &mut cache, &None),
            Err(TimelineErr::InvalidInput),
            "{}",
            bad
        );
    }
}

#[test]
fn uncached_hashtag() {
    let mut cache = cache_with("x", 1);
    assert_eq!(
        Timeline::from_redis_raw_timeline("timeline:hashtag:y", &mut cache, &None),
        Err(TimelineErr::MissingHashtag)
    );
}

#[test]
fn signed_ids_parse() {
    let mut cache = cache_with("x", 1);
    assert_eq!(
        Timeline::from_redis_raw_timeline("timeline:+5", &mut cache, &None),
        Ok(Timeline(Stream::User(5), Reach::Federated, Content::All))
    );
    assert_eq!(
        Timeline::from_redis_raw_timeline("timeline:9223372036854775807", &mut cache, &None),
        Ok(Timeline(Stream::User(i64::MAX), Reach::Federated, Content::All))
    );
    assert_eq!(
        Timeline::from_redis_raw_timeline("timeline:9223372036854775808", &mut cache, &None),
        Err(TimelineErr::InvalidInput)
    );
}

#[test]
fn empty_timeline_is_unset() {
    assert_eq!(Timeline::empty(), Timeline(Stream::Unset, Reach::Local, Content::Notification));
}

#[test]
fn namespace_is_the_first_token() {
    let mut cache = cache_with("x", 1);
    let ns = Some("timeline".to_string());
    assert_eq!(
        Timeline::from_redis_raw_timeline("timeline:timeline:public", &mut cache, &ns),
        Ok(Timeline(Stream::Public, Reach::Federated, Content::All))
    );
    assert_eq!(
        Timeline::from_redis_raw_timeline("foo:timeline:public", &mut cache, &None),
        Err(TimelineErr::InvalidInput)
    );
    assert_eq!(
        Timeline::from_redis_raw_timeline("foo:bar", &mut cache, &Some("mx".to_string())),
        Err(TimelineErr::RedisNamespaceMismatch)
    );
    assert_eq!(
        Timeline::from_redis_raw_timeline("mx:foo", &mut cache, &Some("mx".to_string())),
        Err(TimelineErr::InvalidInput)
    );
}
