//! Timeline identities and their bus channel names.

use crate::cache::{get_id_lru, tag_id_cap, tag_ids};
use crate::text::{
    chars_of, has_no_colon, int_text, is_digit, join, lemma_int_text_shape, lemma_parse_int_text,
    lemma_split_join, parse_i64, parse_i64_chars, push_char, push_int_text, seg_eq, split,
    split_colons, string_of,
};
use lru::LruCache;
use vstd::prelude::*;
use vstd::string::*;

verus! {

#[derive(Clone, Copy, Debug, PartialEq, Eq, Hash, Structural)]
pub enum Stream {
    User(i64),
    List(i64),
    Direct(i64),
    Hashtag(i64),
    Public,
    Unset,
}

#[derive(Clone, Copy, Debug, PartialEq, Eq, Hash, Structural)]
pub enum Reach {
    Local,
    Federated,
}

#[derive(Clone, Copy, Debug, PartialEq, Eq, Hash, Structural)]
pub enum Content {
    All,
    Media,
    Notification,
}

/// A logical stream of events: what is streamed, how far it reaches, and
/// which kind of content it carries.
#[derive(Clone, Copy, Debug, PartialEq, Eq, Hash, Structural)]
pub struct Timeline(pub Stream, pub Reach, pub Content);

/// Why a channel name does not decode to a timeline.
#[derive(Clone, Copy, Debug, PartialEq, Eq, Structural)]
pub enum TimelineErr {
    /// The channel carries another namespace than the configured one.
    RedisNamespaceMismatch,
    /// The channel has no timeline's shape, or its id is not an `i64`.
    InvalidInput,
    /// A hashtag channel whose name the cache does not hold. Subscribing to
    /// a hashtag seeds the cache, so this means that a subscription failed
    /// to: a broken invariant, on which the caller must stop.
    MissingHashtag,
}

/// The combinations of stream, reach and content that have a channel.
pub open spec fn is_legal(t: Timeline) -> bool {
    match t {
        Timeline(Stream::Public, _, Content::All) => true,
        Timeline(Stream::Public, _, Content::Media) => true,
        Timeline(Stream::Hashtag(_), _, Content::All) => true,
        Timeline(Stream::User(_), Reach::Federated, Content::All) => true,
        Timeline(Stream::User(_), Reach::Federated, Content::Notification) => true,
        Timeline(Stream::List(_), Reach::Federated, Content::All) => true,
        Timeline(Stream::Direct(_), Reach::Federated, Content::All) => true,
        _ => false,
    }
}

/// The `:`-separated segments of a legal timeline's channel; `tag` is the
/// hashtag's name.
pub open spec fn segments(t: Timeline, tag: Seq<char>) -> Seq<Seq<char>> {
    match t {
        Timeline(Stream::Public, Reach::Federated, Content::All) => seq!["timeline"@, "public"@],
        Timeline(Stream::Public, Reach::Local, Content::All) => seq![
            "timeline"@,
            "public"@,
            "local"@,
        ],
        Timeline(Stream::Public, Reach::Federated, Content::Media) => seq![
            "timeline"@,
            "public"@,
            "media"@,
        ],
        Timeline(Stream::Public, Reach::Local, Content::Media) => seq![
            "timeline"@,
            "public"@,
            "local"@,
            "media"@,
        ],
        Timeline(Stream::Hashtag(_), Reach::Federated, _) => seq!["timeline"@, "hashtag"@, tag],
        Timeline(Stream::Hashtag(_), Reach::Local, _) => seq![
            "timeline"@,
            "hashtag"@,
            tag,
            "local"@,
        ],
        Timeline(Stream::User(id), _, Content::Notification) => seq![
            "timeline"@,
            int_text(id as int),
            "notification"@,
        ],
        Timeline(Stream::User(id), _, _) => seq!["timeline"@, int_text(id as int)],
        Timeline(Stream::List(id), _, _) => seq!["timeline"@, "list"@, int_text(id as int)],
        Timeline(Stream::Direct(id), _, _) => seq!["timeline"@, "direct"@, int_text(id as int)],
        _ => seq![],
    }
}

/// The channel of a legal timeline, without namespace.
pub open spec fn wire(t: Timeline, tag: Seq<char>) -> Seq<char> {
    join(segments(t, tag))
}

/// The channel of a legal timeline under an optional namespace.
pub open spec fn wire_in(t: Timeline, tag: Seq<char>, ns: Option<Seq<char>>) -> Seq<char> {
    match ns {
        Some(n) => n + seq![':'] + wire(t, tag),
        None => wire(t, tag),
    }
}

/// What the segments of a channel, namespace removed, decode to.
pub open spec fn decode_body(p: Seq<Seq<char>>, cache: Map<Seq<char>, i64>) -> Result<
    Timeline,
    TimelineErr,
> {
    if p.len() == 0 || p[0] != "timeline"@ {
        Err(TimelineErr::InvalidInput)
    } else if p.len() == 2 && p[1] == "public"@ {
        Ok(Timeline(Stream::Public, Reach::Federated, Content::All))
    } else if p.len() == 3 && p[1] == "public"@ && p[2] == "local"@ {
        Ok(Timeline(Stream::Public, Reach::Local, Content::All))
    } else if p.len() == 3 && p[1] == "public"@ && p[2] == "media"@ {
        Ok(Timeline(Stream::Public, Reach::Federated, Content::Media))
    } else if p.len() == 4 && p[1] == "public"@ && p[2] == "local"@ && p[3] == "media"@ {
        Ok(Timeline(Stream::Public, Reach::Local, Content::Media))
    } else if p.len() == 3 && p[1] == "hashtag"@ {
        if cache.contains_key(p[2]) {
            Ok(Timeline(Stream::Hashtag(cache[p[2]]), Reach::Federated, Content::All))
        } else {
            Err(TimelineErr::MissingHashtag)
        }
    } else if p.len() == 4 && p[1] == "hashtag"@ && p[3] == "local"@ {
        if cache.contains_key(p[2]) {
            Ok(Timeline(Stream::Hashtag(cache[p[2]]), Reach::Local, Content::All))
        } else {
            Err(TimelineErr::MissingHashtag)
        }
    } else if p.len() == 2 {
        match parse_i64(p[1]) {
            Some(id) => Ok(Timeline(Stream::User(id), Reach::Federated, Content::All)),
            None => Err(TimelineErr::InvalidInput),
        }
    } else if p.len() == 3 && p[2] == "notification"@ {
        match parse_i64(p[1]) {
            Some(id) => Ok(Timeline(Stream::User(id), Reach::Federated, Content::Notification)),
            None => Err(TimelineErr::InvalidInput),
        }
    } else if p.len() == 3 && p[1] == "list"@ {
        match parse_i64(p[2]) {
            Some(id) => Ok(Timeline(Stream::List(id), Reach::Federated, Content::All)),
            None => Err(TimelineErr::InvalidInput),
        }
    } else if p.len() == 3 && p[1] == "direct"@ {
        match parse_i64(p[2]) {
            Some(id) => Ok(Timeline(Stream::Direct(id), Reach::Federated, Content::All)),
            None => Err(TimelineErr::InvalidInput),
        }
    } else {
        Err(TimelineErr::InvalidInput)
    }
}

/// What the segments of a whole channel decode to under an optional namespace.
pub open spec fn decode(p: Seq<Seq<char>>, ns: Option<Seq<char>>, cache: Map<Seq<char>, i64>) -> Result<
    Timeline,
    TimelineErr,
> {
    match ns {
        Some(n) => if p.len() >= 1 && p[0] == n {
            decode_body(p.drop_first(), cache)
        } else {
            Err(TimelineErr::RedisNamespaceMismatch)
        },
        None => decode_body(p, cache),
    }
}

pub open spec fn views(v: Seq<Vec<char>>) -> Seq<Seq<char>> {
    Seq::new(v.len(), |i: int| v[i]@)
}

pub open spec fn tag_of(hashtag: Option<&String>) -> Seq<char> {
    match hashtag {
        Some(s) => s@,
        None => Seq::empty(),
    }
}

proof fn lemma_join_push(p: Seq<Seq<char>>, x: Seq<char>)
    requires
        p.len() >= 1,
    ensures
        join(p.push(x)) == join(p) + seq![':'] + x,
{
    assert(p.push(x).drop_last() =~= p);
}

/// Appends `:` and then `seg`.
fn push_segment(out: &mut String, seg: &str)
    ensures
        final(out)@ == old(out)@ + seq![':'] + seg@,
{
    push_char(out, ':');
    out.append(seg);
}

impl Timeline {
    /// The placeholder timeline, which no channel names.
    pub fn empty() -> (r: Timeline)
        ensures
            r == Timeline(Stream::Unset, Reach::Local, Content::Notification),
            !is_legal(r),
    {
        Timeline(Stream::Unset, Reach::Local, Content::Notification)
    }

    /// Whether this timeline is one that has a channel.
    pub fn is_streamable(&self) -> (r: bool)
        ensures
            r == is_legal(*self),
    {
        match *self {
            Timeline(Stream::Public, _, Content::All) => true,
            Timeline(Stream::Public, _, Content::Media) => true,
            Timeline(Stream::Hashtag(_), _, Content::All) => true,
            Timeline(Stream::User(_), Reach::Federated, Content::All) => true,
            Timeline(Stream::User(_), Reach::Federated, Content::Notification) => true,
            Timeline(Stream::List(_), Reach::Federated, Content::All) => true,
            Timeline(Stream::Direct(_), Reach::Federated, Content::All) => true,
            _ => false,
        }
    }

    /// The bus channel of this timeline, without namespace. A hashtag
    /// timeline needs its hashtag's name.
    pub fn to_redis_raw_timeline(&self, hashtag: Option<&String>) -> (r: String)
        requires
            is_legal(*self),
            self.0 is Hashtag ==> hashtag.is_some(),
        ensures
            r@ == wire(*self, tag_of(hashtag)),
    {
        let mut out = String::from_str("timeline");
        let ghost mut segs = seq!["timeline"@];
        proof {
            assert(join(segs) == "timeline"@);
        }
        match *self {
            Timeline(Stream::Public, reach, content) => {
                push_segment(&mut out, "public");
                proof {
                    lemma_join_push(segs, "public"@);
                    segs = segs.push("public"@);
                }
                match reach {
                    Reach::Local => {
                        push_segment(&mut out, "local");
                        proof {
                            lemma_join_push(segs, "local"@);
                            segs = segs.push("local"@);
                        }
                    },
                    Reach::Federated => {},
                }
                match content {
                    Content::Media => {
                        push_segment(&mut out, "media");
                        proof {
                            lemma_join_push(segs, "media"@);
                            segs = segs.push("media"@);
                        }
                    },
                    _ => {},
                }
            },
            Timeline(Stream::Hashtag(_), reach, _) => {
                let name: &String = hashtag.unwrap();
                push_segment(&mut out, "hashtag");
                push_segment(&mut out, name.as_str());
                proof {
                    lemma_join_push(segs, "hashtag"@);
                    lemma_join_push(segs.push("hashtag"@), name@);
                    segs = segs.push("hashtag"@).push(name@);
                }
                match reach {
                    Reach::Local => {
                        push_segment(&mut out, "local");
                        proof {
                            lemma_join_push(segs, "local"@);
                            segs = segs.push("local"@);
                        }
                    },
                    Reach::Federated => {},
                }
            },
            Timeline(Stream::User(id), _, content) => {
                push_char(&mut out, ':');
                push_int_text(&mut out, id);
                proof {
                    assert(out@ =~= join(segs) + seq![':'] + int_text(id as int));
                    lemma_join_push(segs, int_text(id as int));
                    segs = segs.push(int_text(id as int));
                }
                match content {
                    Content::Notification => {
                        push_segment(&mut out, "notification");
                        proof {
                            lemma_join_push(segs, "notification"@);
                            segs = segs.push("notification"@);
                        }
                    },
                    _ => {},
                }
            },
            Timeline(Stream::List(id), _, _) => {
                push_segment(&mut out, "list");
                proof {
                    lemma_join_push(segs, "list"@);
                    segs = segs.push("list"@);
                }
                push_char(&mut out, ':');
                push_int_text(&mut out, id);
                proof {
                    assert(out@ =~= join(segs) + seq![':'] + int_text(id as int));
                    lemma_join_push(segs, int_text(id as int));
                    segs = segs.push(int_text(id as int));
                }
            },
            Timeline(Stream::Direct(id), _, _) => {
                push_segment(&mut out, "direct");
                proof {
                    lemma_join_push(segs, "direct"@);
                    segs = segs.push("direct"@);
                }
                push_char(&mut out, ':');
                push_int_text(&mut out, id);
                proof {
                    assert(out@ =~= join(segs) + seq![':'] + int_text(id as int));
                    lemma_join_push(segs, int_text(id as int));
                    segs = segs.push(int_text(id as int));
                }
            },
            _ => {},
        }
        assert(out@ == join(segs));
        assert(segments(*self, tag_of(hashtag)) =~= segs);
        out
    }
}

/// Decodes channel segments, namespace already removed.
fn decode_parts(p: &Vec<Vec<char>>, cache: &mut LruCache<String, i64>) -> (r: Result<
    Timeline,
    TimelineErr,
>)
    ensures
        r == decode_body(views(p@), tag_ids(*old(cache))),
        tag_ids(*final(cache)) == tag_ids(*old(cache)),
        tag_id_cap(*final(cache)) == tag_id_cap(*old(cache)),
{
    let ghost v = views(p@);
    let n = p.len();
    if n == 0 || !seg_eq(&p[0], "timeline") {
        return Err(TimelineErr::InvalidInput);
    }
    assert(v[0] == p@[0]@);
    if n >= 2 {
        assert(v[1] == p@[1]@);
    }
    if n >= 3 {
        assert(v[2] == p@[2]@);
    }
    if n >= 4 {
        assert(v[3] == p@[3]@);
    }
    if n == 2 && seg_eq(&p[1], "public") {
        Ok(Timeline(Stream::Public, Reach::Federated, Content::All))
    } else if n == 3 && seg_eq(&p[1], "public") && seg_eq(&p[2], "local") {
        Ok(Timeline(Stream::Public, Reach::Local, Content::All))
    } else if n == 3 && seg_eq(&p[1], "public") && seg_eq(&p[2], "media") {
        Ok(Timeline(Stream::Public, Reach::Federated, Content::Media))
    } else if n == 4 && seg_eq(&p[1], "public") && seg_eq(&p[2], "local") && seg_eq(
        &p[3],
        "media",
    ) {
        Ok(Timeline(Stream::Public, Reach::Local, Content::Media))
    } else if n == 3 && seg_eq(&p[1], "hashtag") {
        let name = string_of(p[2].as_slice());
        match get_id_lru(cache, name.as_str()) {
            Some(id) => Ok(Timeline(Stream::Hashtag(id), Reach::Federated, Content::All)),
            None => Err(TimelineErr::MissingHashtag),
        }
    } else if n == 4 && seg_eq(&p[1], "hashtag") && seg_eq(&p[3], "local") {
        let name = string_of(p[2].as_slice());
        match get_id_lru(cache, name.as_str()) {
            Some(id) => Ok(Timeline(Stream::Hashtag(id), Reach::Local, Content::All)),
            None => Err(TimelineErr::MissingHashtag),
        }
    } else if n == 2 {
        match parse_i64_chars(p[1].as_slice()) {
            Some(id) => Ok(Timeline(Stream::User(id), Reach::Federated, Content::All)),
            None => Err(TimelineErr::InvalidInput),
        }
    } else if n == 3 && seg_eq(&p[2], "notification") {
        match parse_i64_chars(p[1].as_slice()) {
            Some(id) => Ok(Timeline(Stream::User(id), Reach::Federated, Content::Notification)),
            None => Err(TimelineErr::InvalidInput),
        }
    } else if n == 3 && seg_eq(&p[1], "list") {
        match parse_i64_chars(p[2].as_slice()) {
            Some(id) => Ok(Timeline(Stream::List(id), Reach::Federated, Content::All)),
            None => Err(TimelineErr::InvalidInput),
        }
    } else if n == 3 && seg_eq(&p[1], "direct") {
        match parse_i64_chars(p[2].as_slice()) {
            Some(id) => Ok(Timeline(Stream::Direct(id), Reach::Federated, Content::All)),
            None => Err(TimelineErr::InvalidInput),
        }
    } else {
        Err(TimelineErr::InvalidInput)
    }
}

impl Timeline {
    /// Decodes a bus channel into the timeline it names. With a namespace,
    /// the channel must start with it; a hashtag's id comes from the cache.
    pub fn from_redis_raw_timeline(
        timeline: &str,
        cache: &mut LruCache<String, i64>,
        namespace: &Option<String>,
    ) -> (r: Result<Timeline, TimelineErr>)
        ensures
            r == decode(
                split(timeline@),
                match namespace {
                    Some(n) => Some(n@),
                    None => None,
                },
                tag_ids(*old(cache)),
            ),
            tag_ids(*final(cache)) == tag_ids(*old(cache)),
            tag_id_cap(*final(cache)) == tag_id_cap(*old(cache)),
    {
        let chars = chars_of(timeline);
        let mut parts = split_colons(chars.as_slice());
        let ghost p = split(timeline@);
        assert(views(parts@) =~= p);
        proof {
            if p.len() >= 1 {
                assert(p[0] == parts@[0]@);
            }
            if p.len() >= 2 {
                assert(p[1] == parts@[1]@);
            }
        }
        match namespace {
            Some(ns) => {
                if parts.len() >= 1 && seg_eq(&parts[0], ns.as_str()) {
                    let _ = parts.remove(0);
                    assert(views(parts@) =~= p.drop_first());
                    decode_parts(&parts, cache)
                } else {
                    Err(TimelineErr::RedisNamespaceMismatch)
                }
            },
            None => decode_parts(&parts, cache),
        }
    }
}

/// Facts about the fixed channel words: they hold no `:`, and their first
/// characters tell them apart from each other and from integer text.
proof fn lemma_channel_words()
    ensures
        has_no_colon("timeline"@),
        has_no_colon("public"@),
        has_no_colon("local"@),
        has_no_colon("media"@),
        has_no_colon("hashtag"@),
        has_no_colon("notification"@),
        has_no_colon("list"@),
        has_no_colon("direct"@),
        "timeline"@.len() > 0 && "timeline"@[0] == 't',
        "public"@.len() > 0 && "public"@[0] == 'p',
        "local"@.len() > 0 && "local"@[0] == 'l',
        "media"@.len() > 0 && "media"@[0] == 'm',
        "hashtag"@.len() > 0 && "hashtag"@[0] == 'h',
        "notification"@.len() > 0 && "notification"@[0] == 'n',
        "list"@.len() > 0 && "list"@[0] == 'l',
        "list"@.len() > 1 && "list"@[1] == 'i',
        "local"@.len() > 1 && "local"@[1] == 'o',
        "direct"@.len() > 0 && "direct"@[0] == 'd',
{
    reveal_strlit("timeline");
    reveal_strlit("public");
    reveal_strlit("local");
    reveal_strlit("media");
    reveal_strlit("hashtag");
    reveal_strlit("notification");
    reveal_strlit("list");
    reveal_strlit("direct");
}

/// Decoding the channel of a legal timeline gives that timeline back,
/// whatever the namespace, as long as the namespace and the hashtag name hold
/// no `:` and the cache maps the hashtag's name to its id.
pub proof fn lemma_wire_round_trip(
    t: Timeline,
    tag: Seq<char>,
    ns: Option<Seq<char>>,
    cache: Map<Seq<char>, i64>,
)
    requires
        is_legal(t),
        has_no_colon(tag),
        ns is Some ==> has_no_colon(ns->0),
        t.0 is Hashtag ==> cache.contains_key(tag) && cache[tag] == t.0->Hashtag_0,
    ensures
        decode(split(wire_in(t, tag, ns)), ns, cache) is Ok,
        decode(split(wire_in(t, tag, ns)), ns, cache)->Ok_0 == t,
{
    lemma_channel_words();
    let segs = segments(t, tag);
    let id: i64 = match t.0 {
        Stream::User(i) => i,
        Stream::List(i) => i,
        Stream::Direct(i) => i,
        _ => 0,
    };
    lemma_int_text_shape(id as int);
    lemma_parse_int_text(id);
    let it = int_text(id as int);
    assert(it != "public"@ && it != "hashtag"@ && it != "notification"@ && it != "list"@
        && it != "direct"@) by {
        assert(is_digit(it[0]) || it[0] == '-');
    }
    assert forall|i: int| 0 <= i < segs.len() implies has_no_colon(#[trigger] segs[i]) by {}
    assert(segs.len() >= 2);
    match ns {
        Some(n) => {
            let all = seq![n] + segs;
            assert forall|i: int| 0 <= i < all.len() implies has_no_colon(#[trigger] all[i]) by {
                if i > 0 {
                    assert(all[i] == segs[i - 1]);
                }
            }
            lemma_join_prepend(n, segs);
            lemma_split_join(all);
            assert(all.drop_first() =~= segs);
        },
        None => {
            lemma_split_join(segs);
        },
    }
}

proof fn lemma_join_prepend(n: Seq<char>, segs: Seq<Seq<char>>)
    requires
        segs.len() >= 1,
    ensures
        join(seq![n] + segs) == n + seq![':'] + join(segs),
    decreases segs.len(),
{
    if segs.len() == 1 {
        assert(seq![n] + segs =~= seq![n].push(segs[0]));
        lemma_join_push(seq![n], segs[0]);
        assert(join(seq![n]) == n);
    } else {
        let p = segs.drop_last();
        lemma_join_prepend(n, p);
        assert(seq![n] + segs =~= (seq![n] + p).push(segs.last()));
        lemma_join_push(seq![n] + p, segs.last());
        lemma_join_push(p, segs.last());
        assert(p.push(segs.last()) =~= segs);
    }
}

} // verus!
